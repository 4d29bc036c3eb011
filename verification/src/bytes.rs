//! Byte-sequence helpers shared by the credential parser and the key digests:
//! equality, copying, slicing, lowercase hex, decimal numerals, and splitting
//! on a delimiter byte.
use vstd::prelude::*;

verus! {

/// Encodes one hex digit (a value below 16) as its lowercase ASCII byte.
pub open spec fn hex_digit(v: u8) -> u8
    recommends
        v < 16,
{
    if v < 10 {
        (0x30 + v) as u8
    } else {
        (0x57 + v) as u8
    }
}

/// The lowercase hexadecimal encoding of a byte sequence: two digits per
/// byte, high nibble first.
pub open spec fn hex_of(b: Seq<u8>) -> Seq<u8>
    decreases b.len(),
{
    if b.len() == 0 {
        Seq::empty()
    } else {
        seq![hex_digit(b[0] / 16), hex_digit(b[0] % 16)] + hex_of(b.skip(1))
    }
}

/// Relies on hex::encode: it returns the lowercase hexadecimal form of the
/// input, two digits per byte, high nibble first.
#[verifier::external_body]
pub(crate) fn hex_encode(b: &Vec<u8>) -> (r: Vec<u8>)
    ensures
        r@ == hex_of(b@),
{
    hex::encode(b).into_bytes()
}

/// Exact byte-for-byte equality of two vectors.
pub fn bytes_eq(a: &Vec<u8>, b: &Vec<u8>) -> (r: bool)
    ensures
        r == (a@ == b@),
{
    if a.len() != b.len() {
        proof {
            assert(a@ != b@);
        }
        return false;
    }
    let mut i: usize = 0;
    while i < a.len()
        invariant
            i <= a@.len(),
            a@.len() == b@.len(),
            forall|j: int| 0 <= j < i ==> a@[j] == b@[j],
        decreases a@.len() - i,
    {
        if a[i] != b[i] {
            proof {
                assert(a@ != b@);
            }
            return false;
        }
        i = i + 1;
    }
    proof {
        assert(a@ =~= b@);
    }
    true
}

/// A fresh vector holding the same bytes.
pub fn copy_bytes(v: &Vec<u8>) -> (r: Vec<u8>)
    ensures
        r@ == v@,
{
    let mut r: Vec<u8> = Vec::new();
    let mut i: usize = 0;
    while i < v.len()
        invariant
            i <= v@.len(),
            r@ == v@.take(i as int),
        decreases v@.len() - i,
    {
        r.push(v[i]);
        i = i + 1;
        proof {
            assert(v@.take(i as int) == v@.take(i - 1).push(v@[i - 1]));
        }
    }
    proof {
        assert(v@.take(v@.len() as int) == v@);
    }
    r
}

/// Appends all of `src` to `dst`.
pub fn append_bytes(dst: &mut Vec<u8>, src: &Vec<u8>)
    ensures
        final(dst)@ == old(dst)@ + src@,
{
    let mut i: usize = 0;
    while i < src.len()
        invariant
            i <= src@.len(),
            dst@ == old(dst)@ + src@.take(i as int),
        decreases src@.len() - i,
    {
        dst.push(src[i]);
        i = i + 1;
        proof {
            assert(old(dst)@ + src@.take(i as int) == (old(dst)@ + src@.take(i - 1)).push(
                src@[i - 1],
            ));
        }
    }
    proof {
        assert(old(dst)@ + src@.take(src@.len() as int) == old(dst)@ + src@);
    }
}

/// The bytes of `v` from `from` (inclusive) to `to` (exclusive).
pub fn sub_bytes(v: &Vec<u8>, from: usize, to: usize) -> (r: Vec<u8>)
    requires
        from <= to <= v@.len(),
    ensures
        r@ == v@.subrange(from as int, to as int),
{
    let mut r: Vec<u8> = Vec::new();
    let mut i: usize = from;
    while i < to
        invariant
            from <= i <= to <= v@.len(),
            r@ == v@.subrange(from as int, i as int),
        decreases to - i,
    {
        r.push(v[i]);
        i = i + 1;
        proof {
            assert(v@.subrange(from as int, i as int) == v@.subrange(from as int, i - 1).push(
                v@[i - 1],
            ));
        }
    }
    r
}

/// Whether `v` begins with `prefix`.
pub fn starts_with(v: &Vec<u8>, prefix: &Vec<u8>) -> (r: bool)
    ensures
        r == (v@.len() >= prefix@.len() && v@.take(prefix@.len() as int) == prefix@),
{
    if v.len() < prefix.len() {
        return false;
    }
    let mut i: usize = 0;
    while i < prefix.len()
        invariant
            i <= prefix@.len() <= v@.len(),
            forall|j: int| 0 <= j < i ==> v@[j] == prefix@[j],
        decreases prefix@.len() - i,
    {
        if v[i] != prefix[i] {
            proof {
                assert(v@.take(prefix@.len() as int)[i as int] == v@[i as int]);
            }
            return false;
        }
        i = i + 1;
    }
    proof {
        assert(v@.take(prefix@.len() as int) =~= prefix@);
    }
    true
}

/// The position of the last occurrence of `d` in `s`, or -1 when `d` does not
/// occur.
pub open spec fn find_last(s: Seq<u8>, d: u8) -> int
    decreases s.len(),
{
    if s.len() == 0 {
        -1
    } else if s[s.len() - 1] == d {
        s.len() - 1
    } else {
        find_last(s.drop_last(), d)
    }
}

pub proof fn lemma_find_last(s: Seq<u8>, d: u8)
    ensures
        -1 <= find_last(s, d) < s.len(),
        find_last(s, d) >= 0 ==> s[find_last(s, d)] == d,
        forall|j: int| find_last(s, d) < j < s.len() ==> s[j] != d,
    decreases s.len(),
{
    if s.len() > 0 && s[s.len() - 1] != d {
        lemma_find_last(s.drop_last(), d);
        assert forall|j: int| find_last(s, d) < j < s.len() implies s[j] != d by {
            if j < s.len() - 1 {
                assert(s.drop_last()[j] == s[j]);
            }
        }
    }
}

/// `find_last` of a sequence whose suffix after position `i` is free of `d`,
/// while position `i` holds `d`, is `i`.
pub proof fn lemma_find_last_at(s: Seq<u8>, d: u8, i: int)
    requires
        0 <= i < s.len(),
        s[i] == d,
        forall|j: int| i < j < s.len() ==> s[j] != d,
    ensures
        find_last(s, d) == i,
    decreases s.len(),
{
    if s.len() - 1 > i {
        assert(forall|j: int|
            0 <= j < s.len() - 1 ==> s[j] == #[trigger] s.drop_last()[j]);
        lemma_find_last_at(s.drop_last(), d, i);
    }
}

/// The position of the last occurrence of `d` in `v`, when there is one.
pub fn find_last_byte(v: &Vec<u8>, d: u8) -> (r: Option<usize>)
    ensures
        match r {
            Some(i) => i == find_last(v@, d),
            None => find_last(v@, d) < 0,
        },
{
    let mut i: usize = v.len();
    while i > 0
        invariant
            i <= v@.len(),
            forall|j: int| i <= j < v@.len() ==> v@[j] != d,
        decreases i,
    {
        i = i - 1;
        if v[i] == d {
            proof {
                lemma_find_last_at(v@, d, i as int);
            }
            return Some(i);
        }
    }
    proof {
        lemma_find_last(v@, d);
        if find_last(v@, d) >= 0 {
            assert(v@[find_last(v@, d)] == d);
            assert(false);
        }
    }
    None
}

/// Splitting a byte sequence on a delimiter byte. The result always holds at
/// least one piece; the delimiter itself appears in none of them.
pub open spec fn split_on(s: Seq<u8>, d: u8) -> Seq<Seq<u8>>
    decreases s.len(),
{
    if s.len() == 0 {
        seq![Seq::empty()]
    } else if s[s.len() - 1] == d {
        split_on(s.drop_last(), d).push(Seq::empty())
    } else {
        let r = split_on(s.drop_last(), d);
        r.update(r.len() - 1, r[r.len() - 1].push(s[s.len() - 1]))
    }
}

pub proof fn lemma_split_on_len(s: Seq<u8>, d: u8)
    ensures
        split_on(s, d).len() >= 1,
    decreases s.len(),
{
    if s.len() > 0 {
        lemma_split_on_len(s.drop_last(), d);
    }
}

/// Joining pieces with a delimiter byte between each two.
pub open spec fn join_with(parts: Seq<Seq<u8>>, d: u8) -> Seq<u8>
    decreases parts.len(),
{
    if parts.len() == 0 {
        Seq::empty()
    } else if parts.len() == 1 {
        parts[0]
    } else {
        join_with(parts.drop_last(), d) + seq![d] + parts[parts.len() - 1]
    }
}

/// Splitting after appending delimiter-free bytes extends the final piece.
proof fn lemma_split_on_append_clean(s: Seq<u8>, b: Seq<u8>, d: u8)
    requires
        !b.contains(d),
    ensures
        split_on(s + b, d) == ({
            let r = split_on(s, d);
            r.update(r.len() - 1, r[r.len() - 1] + b)
        }),
    decreases b.len(),
{
    lemma_split_on_len(s, d);
    let r = split_on(s, d);
    if b.len() == 0 {
        assert(s + b =~= s);
        assert(r[r.len() - 1] + b =~= r[r.len() - 1]);
        assert(r.update(r.len() - 1, r[r.len() - 1] + b) =~= r);
    } else {
        assert(b.drop_last().len() < b.len());
        assert(forall|j: int| 0 <= j < b.len() - 1 ==> b.drop_last()[j] == b[j]);
        assert(!b.drop_last().contains(d)) by {
            if b.drop_last().contains(d) {
                let j = choose|j: int| 0 <= j < b.drop_last().len() && b.drop_last()[j] == d;
                assert(b[j] == d);
            }
        }
        lemma_split_on_append_clean(s, b.drop_last(), d);
        let sb = s + b;
        assert(sb.len() > 0);
        assert(sb[sb.len() - 1] == b[b.len() - 1]);
        assert(b.contains(b[b.len() - 1]));
        assert(sb[sb.len() - 1] != d);
        assert(sb.drop_last() =~= s + b.drop_last());
        let r1 = split_on(s + b.drop_last(), d);
        assert(r1 == r.update(r.len() - 1, r[r.len() - 1] + b.drop_last()));
        assert(r1.len() == r.len());
        assert(split_on(sb, d) == r1.update(r1.len() - 1, r1[r1.len() - 1].push(
            b[b.len() - 1],
        )));
        assert(r1[r1.len() - 1] == r[r.len() - 1] + b.drop_last());
        assert((r[r.len() - 1] + b.drop_last()).push(b[b.len() - 1]) =~= r[r.len() - 1] + b);
        assert(r1.update(r1.len() - 1, r1[r1.len() - 1].push(b[b.len() - 1])) =~= r.update(
            r.len() - 1,
            r[r.len() - 1] + b,
        ));
    }
}

/// Splitting a delimiter-free sequence yields that sequence as the one piece.
proof fn lemma_split_on_clean(s: Seq<u8>, d: u8)
    requires
        !s.contains(d),
    ensures
        split_on(s, d) == seq![s],
{
    assert(Seq::<u8>::empty() + s =~= s);
    lemma_split_on_append_clean(Seq::empty(), s, d);
    let r = split_on(Seq::<u8>::empty(), d);
    assert(r == seq![Seq::<u8>::empty()]);
    assert(r.update(0, r[0] + s) =~= seq![Seq::<u8>::empty() + s]);
    assert(Seq::<u8>::empty() + s =~= s);
    assert(seq![Seq::<u8>::empty() + s] =~= seq![s]);
}

/// Splitting undoes joining when no piece holds the delimiter.
pub proof fn lemma_split_join(parts: Seq<Seq<u8>>, d: u8)
    requires
        parts.len() >= 1,
        forall|i: int| 0 <= i < parts.len() ==> !(#[trigger] parts[i]).contains(d),
    ensures
        split_on(join_with(parts, d), d) == parts,
    decreases parts.len(),
{
    if parts.len() == 1 {
        lemma_split_on_clean(parts[0], d);
        assert(split_on(join_with(parts, d), d) =~= parts);
    } else {
        lemma_split_join(parts.drop_last(), d);
        let a = join_with(parts.drop_last(), d);
        let b = parts[parts.len() - 1];
        assert(join_with(parts, d) == a + seq![d] + b);
        let ad = a + seq![d];
        assert(ad.len() > 0 && ad[ad.len() - 1] == d);
        assert(ad.drop_last() =~= a);
        let ra = split_on(a, d);
        assert(split_on(ad, d) == ra.push(Seq::empty()));
        assert(a + seq![d] + b =~= ad + b);
        lemma_split_on_append_clean(ad, b, d);
        let rad = split_on(ad, d);
        assert(split_on(ad + b, d) == rad.update(rad.len() - 1, rad[rad.len() - 1] + b));
        assert(rad[rad.len() - 1] == Seq::<u8>::empty());
        assert(Seq::<u8>::empty() + b =~= b);
        assert(ra == parts.drop_last());
        assert(rad.update(rad.len() - 1, Seq::<u8>::empty() + b) =~= parts);
    }
}

/// The pieces of `v` between occurrences of `d`, in order.
pub fn split_bytes(v: &Vec<u8>, d: u8) -> (r: Vec<Vec<u8>>)
    ensures
        r.deep_view() == split_on(v@, d),
{
    let mut acc: Vec<Vec<u8>> = Vec::new();
    let mut cur: Vec<u8> = Vec::new();
    let mut i: usize = 0;
    while i < v.len()
        invariant
            i <= v@.len(),
            acc.deep_view().push(cur@) == split_on(v@.take(i as int), d),
        decreases v@.len() - i,
    {
        let ghost pre = v@.take(i as int);
        let b = v[i];
        i = i + 1;
        proof {
            assert(v@.take(i as int).drop_last() =~= pre);
            assert(v@.take(i as int)[i - 1] == v@[i - 1]);
        }
        let ghost oldacc = acc.deep_view();
        let ghost oldcur = cur@;
        if b == d {
            acc.push(cur);
            cur = Vec::new();
            proof {
                assert(acc.deep_view() =~~= oldacc.push(oldcur));
                assert(split_on(v@.take(i as int), d) == split_on(pre, d).push(
                    Seq::<u8>::empty(),
                ));
                assert(acc.deep_view().push(cur@) =~~= split_on(v@.take(i as int), d));
            }
        } else {
            cur.push(b);
            proof {
                let r0 = split_on(pre, d);
                lemma_split_on_len(pre, d);
                assert(split_on(v@.take(i as int), d) == r0.update(
                    r0.len() - 1,
                    r0[r0.len() - 1].push(v@[i - 1]),
                ));
                assert(r0 == oldacc.push(oldcur));
                assert(r0[r0.len() - 1] == oldcur);
                assert(cur@ == oldcur.push(b));
                assert(acc.deep_view().push(cur@) =~~= split_on(v@.take(i as int), d));
            }
        }
    }
    let ghost oldacc = acc.deep_view();
    let ghost oldcur = cur@;
    acc.push(cur);
    proof {
        assert(v@.take(v@.len() as int) == v@);
        assert(acc.deep_view() =~~= oldacc.push(oldcur));
    }
    acc
}

/// Whether every byte is an ASCII decimal digit.
pub open spec fn is_dec_digits(s: Seq<u8>) -> bool {
    forall|i: int| 0 <= i < s.len() ==> 0x30 <= #[trigger] s[i] <= 0x39
}

/// The value of a sequence of ASCII decimal digits.
pub open spec fn dec_val(s: Seq<u8>) -> nat
    decreases s.len(),
{
    if s.len() == 0 {
        0
    } else {
        dec_val(s.drop_last()) * 10 + ((s[s.len() - 1] - 0x30) as nat)
    }
}

/// Parses an ASCII decimal numeral. Returns the value exactly when the bytes
/// are one or more digits whose value fits in a `u64`.
pub fn parse_u64(s: &Vec<u8>) -> (r: Option<u64>)
    ensures
        match r {
            Some(v) => s@.len() > 0 && is_dec_digits(s@) && dec_val(s@) == v,
            None => s@.len() == 0 || !is_dec_digits(s@) || dec_val(s@) > u64::MAX,
        },
{
    if s.len() == 0 {
        return None;
    }
    let mut v: u64 = 0;
    let mut i: usize = 0;
    while i < s.len()
        invariant
            i <= s@.len(),
            is_dec_digits(s@.take(i as int)),
            v == dec_val(s@.take(i as int)),
        decreases s@.len() - i,
    {
        let ghost pre = s@.take(i as int);
        let b = s[i];
        if b < 0x30 || b > 0x39 {
            proof {
                assert(s@[i as int] == b);
            }
            return None;
        }
        let d = (b - 0x30) as u64;
        if v > (u64::MAX - d) / 10 {
            proof {
                assert(s@.take(i + 1).drop_last() =~= pre);
                assert(s@.take(i + 1)[i as int] == b);
                assert(dec_val(s@.take(i + 1)) == v * 10 + d);
                assert(v * 10 + d > u64::MAX) by (nonlinear_arith)
                    requires
                        v > (u64::MAX - d) / 10,
                        d <= 9,
                ;
                if is_dec_digits(s@) {
                    lemma_dec_val_prefix_le(s@, i + 1);
                }
            }
            return None;
        }
        proof {
            assert(v * 10 + d <= u64::MAX) by (nonlinear_arith)
                requires
                    v <= (u64::MAX - d) / 10,
                    d <= 9,
            ;
        }
        v = v * 10 + d;
        i = i + 1;
        proof {
            assert(s@.take(i as int).drop_last() =~= pre);
            assert(s@.take(i as int)[i - 1] == b);
            assert(forall|j: int|
                0 <= j < i ==> s@.take(i as int)[j] == #[trigger] s@[j]);
        }
    }
    proof {
        assert(s@.take(s@.len() as int) == s@);
    }
    Some(v)
}

/// The value of a numeral is at least the value of any of its prefixes times
/// the weight of the dropped digits; in particular a prefix never exceeds it.
proof fn lemma_dec_val_prefix_le(s: Seq<u8>, i: int)
    requires
        0 <= i <= s.len(),
        is_dec_digits(s),
    ensures
        dec_val(s) >= dec_val(s.take(i)),
    decreases s.len() - i,
{
    if i < s.len() {
        lemma_dec_val_prefix_le(s, i + 1);
        let t = s.take(i + 1);
        assert(t.drop_last() =~= s.take(i));
        assert(dec_val(t) == dec_val(s.take(i)) * 10 + (s[i] - 0x30));
        assert(dec_val(s.take(i)) * 10 >= dec_val(s.take(i))) by (nonlinear_arith);
    } else {
        assert(s.take(i) =~= s);
    }
}


/// The canonical decimal numeral of `n`: most significant digit first, no
/// leading zero except for the numeral `0` itself.
pub open spec fn dec_of(n: nat) -> Seq<u8>
    decreases n,
{
    if n < 10 {
        seq![(0x30 + n) as u8]
    } else {
        dec_of(n / 10).push((0x30 + n % 10) as u8)
    }
}

/// The same numeral with the least significant digit first.
pub open spec fn le_digits(n: nat) -> Seq<u8>
    decreases n,
{
    if n < 10 {
        seq![(0x30 + n) as u8]
    } else {
        seq![(0x30 + n % 10) as u8] + le_digits(n / 10)
    }
}

proof fn lemma_le_digits_reverse(n: nat)
    ensures
        le_digits(n).reverse() == dec_of(n),
    decreases n,
{
    if n < 10 {
        assert(le_digits(n).reverse() =~= dec_of(n));
    } else {
        lemma_le_digits_reverse(n / 10);
        assert(le_digits(n).reverse() =~= le_digits(n / 10).reverse().push(
            (0x30 + n % 10) as u8,
        ));
    }
}

/// Ten to the given power.
pub open spec fn pow10(n: nat) -> nat
    decreases n,
{
    if n == 0 {
        1
    } else {
        pow10((n - 1) as nat) * 10
    }
}

proof fn lemma_pow10_big(n: nat)
    requires
        n >= 20,
    ensures
        pow10(n) > u64::MAX,
    decreases n,
{
    if n == 20 {
        assert(pow10(20) > u64::MAX) by {
            reveal_with_fuel(pow10, 21);
        }
    } else {
        lemma_pow10_big((n - 1) as nat);
        assert(pow10(n) == pow10((n - 1) as nat) * 10);
        assert(pow10((n - 1) as nat) * 10 >= pow10((n - 1) as nat)) by (nonlinear_arith);
    }
}

/// What the canonical numeral satisfies: digits only, the value reads back,
/// and the length is bounded by the magnitude.
pub proof fn lemma_dec_of_props(n: nat)
    ensures
        is_dec_digits(dec_of(n)),
        dec_val(dec_of(n)) == n,
        1 <= dec_of(n).len(),
        n > 0 ==> pow10((dec_of(n).len() - 1) as nat) <= n,
        n == 0 ==> dec_of(n).len() == 1,
    decreases n,
{
    if n < 10 {
        let s = dec_of(n);
        assert(s.drop_last() =~= Seq::empty());
        assert(dec_val(s) == dec_val(Seq::<u8>::empty()) * 10 + ((s[0] - 0x30) as nat));
    } else {
        lemma_dec_of_props(n / 10);
        let s = dec_of(n);
        let t = dec_of(n / 10);
        assert(s == t.push((0x30 + n % 10) as u8));
        assert(s.drop_last() =~= t);
        assert(dec_val(s) == dec_val(t) * 10 + n % 10);
        assert(n == (n / 10) * 10 + n % 10) by (nonlinear_arith)
            requires
                n >= 10,
        ;
        assert(forall|i: int| 0 <= i < s.len() ==> 0x30 <= #[trigger] s[i] <= 0x39) by {
            assert(forall|i: int| 0 <= i < t.len() ==> 0x30 <= #[trigger] t[i] <= 0x39);
            assert(forall|i: int| 0 <= i < s.len() - 1 ==> s[i] == t[i]);
            assert(s[s.len() - 1] == (0x30 + n % 10) as u8);
        }
        assert(pow10((s.len() - 1) as nat) == pow10((t.len() - 1) as nat) * 10);
        assert(pow10((t.len() - 1) as nat) * 10 <= (n / 10) * 10) by (nonlinear_arith)
            requires
                pow10((t.len() - 1) as nat) <= n / 10,
        ;
    }
}

/// A numeral whose value fits in a `u64` has at most 20 digits.
pub proof fn lemma_dec_of_len_u64(n: nat)
    requires
        n <= u64::MAX,
    ensures
        1 <= dec_of(n).len() <= 20,
{
    lemma_dec_of_props(n);
    if dec_of(n).len() > 20 {
        lemma_pow10_big((dec_of(n).len() - 1) as nat);
    }
}

/// Writes `v` as its canonical decimal numeral.
pub fn format_u64(v: u64) -> (r: Vec<u8>)
    ensures
        r@ == dec_of(v as nat),
{
    let mut rev: Vec<u8> = Vec::new();
    let mut x: u64 = v;
    loop
        invariant_except_break
            x > 0 ==> le_digits(v as nat) == rev@ + le_digits(x as nat),
            x == 0 ==> (v == 0 && rev@ =~= Seq::<u8>::empty()),
        ensures
            rev@ == le_digits(v as nat),
        decreases x,
    {
        let d = (x % 10) as u8;
        let ghost oldrev = rev@;
        let ghost oldx = x as nat;
        rev.push(0x30 + d);
        x = x / 10;
        proof {
            if oldx == 0 {
                assert(rev@ =~= seq![0x30u8]);
                assert(le_digits(0) =~= seq![0x30u8]);
            } else if oldx < 10 {
                assert(le_digits(oldx) =~= seq![(0x30 + oldx) as u8]);
                assert(rev@ =~= oldrev + le_digits(oldx));
                assert(x == 0);
            } else {
                assert(le_digits(oldx) == seq![(0x30 + oldx % 10) as u8] + le_digits(oldx / 10));
                assert(x as nat == oldx / 10);
                assert(x > 0);
                assert(rev@ + le_digits(x as nat) =~= oldrev + le_digits(oldx));
            }
        }
        if x == 0 {
            break;
        }
    }
    let mut r: Vec<u8> = Vec::new();
    let mut i: usize = rev.len();
    while i > 0
        invariant
            i <= rev@.len(),
            r@ == rev@.subrange(i as int, rev@.len() as int).reverse(),
        decreases i,
    {
        i = i - 1;
        r.push(rev[i]);
        proof {
            assert(rev@.subrange(i as int, rev@.len() as int).reverse() =~= rev@.subrange(
                i + 1,
                rev@.len() as int,
            ).reverse().push(rev@[i as int]));
        }
    }
    proof {
        assert(r@ =~= rev@.reverse());
        lemma_le_digits_reverse(v as nat);
    }
    r
}

} // verus!
