//! The plain grayscale text image format: `P2`, `width height`, the maximum, then the values.
use vstd::prelude::*;

verus! {

/// The decimal digits of `n`, most significant first, as ASCII bytes.
pub open spec fn digits(n: nat) -> Seq<u8>
    decreases n,
{
    if n < 10 {
        seq![(48 + n) as u8]
    } else {
        digits(n / 10).push((48 + n % 10) as u8)
    }
}

/// Each value in decimal followed by one space.
pub open spec fn values_text(d: Seq<u32>) -> Seq<u8>
    decreases d.len(),
{
    if d.len() == 0 {
        Seq::empty()
    } else {
        digits(d[0] as nat) + seq![32u8] + values_text(d.drop_first())
    }
}

/// The header: `P2`, then `width height`, then the maximum, each on its own line.
pub open spec fn header_text(width: nat, height: nat, max: nat) -> Seq<u8> {
    seq![80u8, 50u8, 10u8] + digits(width) + seq![32u8] + digits(height) + seq![10u8] + digits(max)
        + seq![10u8]
}

/// The whole image: the header, then the values in row-major order.
pub open spec fn pgm_text(width: nat, height: nat, max: nat, data: Seq<u32>) -> Seq<u8> {
    header_text(width, height, max) + values_text(data)
}

/// Whether a byte is an ASCII decimal digit.
pub open spec fn is_digit(b: u8) -> bool {
    48 <= b <= 57
}

/// The number that a string of decimal digits spells.
pub open spec fn value_of(s: Seq<u8>) -> nat
    decreases s.len(),
{
    if s.len() == 0 {
        0
    } else {
        value_of(s.drop_last()) * 10 + (s.last() - 48) as nat
    }
}

/// A string of digits without a superfluous leading zero.
pub open spec fn canonical(s: Seq<u8>) -> bool {
    &&& s.len() > 0
    &&& forall|i: int| 0 <= i < s.len() ==> is_digit(#[trigger] s[i])
    &&& (s[0] != 48 || s.len() == 1)
}

proof fn lemma_digits(n: nat)
    ensures
        canonical(digits(n)),
        value_of(digits(n)) == n,
    decreases n,
{
    let d = digits(n);
    if n >= 10 {
        lemma_digits(n / 10);
        let t = digits(n / 10);
        assert(d.drop_last() =~= t);
        assert(forall|i: int| 0 <= i < t.len() ==> d[i] == t[i]);
        vstd::arithmetic::div_mod::lemma_fundamental_div_mod(n as int, 10);
        assert(d.last() == (48 + n % 10) as u8);
        assert(value_of(d) == value_of(t) * 10 + n % 10);
        if t[0] == 48 {
            assert(t.len() == 1);
            assert(t.drop_last() =~= Seq::<u8>::empty());
            assert(value_of(t.drop_last()) == 0);
            assert(t.last() == t[0]);
            assert(value_of(t) == 0);
        }
        assert(d[0] == t[0]);
        assert forall|i: int| 0 <= i < d.len() implies is_digit(#[trigger] d[i]) by {
            if i < t.len() {
                assert(d[i] == t[i]);
            }
        }
    } else {
        assert(d.drop_last() =~= Seq::<u8>::empty());
        assert(value_of(d.drop_last()) == 0);
        assert(d.last() == (48 + n) as u8);
    }
}

proof fn lemma_value_positive(s: Seq<u8>)
    requires
        canonical(s),
        s[0] != 48,
    ensures
        value_of(s) >= 1,
    decreases s.len(),
{
    if s.len() > 1 {
        let t = s.drop_last();
        assert(t[0] == s[0]);
        assert(forall|i: int| 0 <= i < t.len() ==> t[i] == s[i]);
        lemma_value_positive(t);
    }
}

proof fn lemma_canonical_digits(s: Seq<u8>)
    requires
        canonical(s),
    ensures
        digits(value_of(s)) == s,
    decreases s.len(),
{
    if s.len() == 1 {
        assert(s[0] == s.last());
        assert(s.drop_last() =~= Seq::<u8>::empty());
        assert(value_of(s.drop_last()) == 0);
        assert(is_digit(s[0]));
        assert(value_of(s) == (s[0] - 48) as nat);
        assert(value_of(s) < 10);
        assert(digits(value_of(s)) =~= s);
    } else {
        let t = s.drop_last();
        assert(t[0] == s[0]);
        assert(forall|i: int| 0 <= i < t.len() ==> t[i] == s[i]);
        lemma_canonical_digits(t);
        lemma_value_positive(t);
        let v = value_of(t);
        let d = (s.last() - 48) as nat;
        assert(is_digit(s[s.len() - 1]));
        vstd::arithmetic::div_mod::lemma_fundamental_div_mod_converse(
            (v * 10 + d) as int,
            10,
            v as int,
            d as int,
        );
        assert(digits(value_of(s)) =~= s);
    }
}

proof fn lemma_value_of_prefix(s: Seq<u8>, j: int)
    requires
        0 <= j <= s.len(),
        forall|i: int| 0 <= i < s.len() ==> is_digit(#[trigger] s[i]),
    ensures
        value_of(s.take(j)) <= value_of(s),
    decreases s.len(),
{
    if j < s.len() {
        let t = s.drop_last();
        assert(forall|i: int| 0 <= i < t.len() ==> t[i] == s[i]);
        lemma_value_of_prefix(t, j);
        assert(t.take(j) =~= s.take(j));
    } else {
        assert(s.take(j) =~= s);
    }
}

/// A number followed by a non-digit is read back unambiguously.
proof fn lemma_digits_prefix(x: nat, y: nat, r1: Seq<u8>, r2: Seq<u8>)
    requires
        digits(x) + r1 == digits(y) + r2,
        r1.len() > 0 && !is_digit(r1[0]),
        r2.len() > 0 && !is_digit(r2[0]),
    ensures
        x == y,
        r1 == r2,
{
    let a = digits(x);
    let b = digits(y);
    lemma_digits(x);
    lemma_digits(y);
    if a.len() < b.len() {
        assert((a + r1)[a.len() as int] == r1[0]);
        assert((b + r2)[a.len() as int] == b[a.len() as int]);
    } else if b.len() < a.len() {
        assert((b + r2)[b.len() as int] == r2[0]);
        assert((a + r1)[b.len() as int] == a[b.len() as int]);
    } else {
        assert(a =~= (a + r1).take(a.len() as int));
        assert(b =~= (b + r2).take(b.len() as int));
        assert(r1 =~= (a + r1).skip(a.len() as int));
        assert(r2 =~= (b + r2).skip(b.len() as int));
    }
}

proof fn lemma_values_text_injective(d1: Seq<u32>, d2: Seq<u32>)
    requires
        values_text(d1) == values_text(d2),
    ensures
        d1 == d2,
    decreases d1.len(),
{
    if d1.len() == 0 || d2.len() == 0 {
        if d1.len() > 0 {
            lemma_digits(d1[0] as nat);
            assert(values_text(d1).len() > 0);
        }
        if d2.len() > 0 {
            lemma_digits(d2[0] as nat);
            assert(values_text(d2).len() > 0);
        }
        assert(d1 =~= d2);
    } else {
        let r1 = seq![32u8] + values_text(d1.drop_first());
        let r2 = seq![32u8] + values_text(d2.drop_first());
        assert(values_text(d1) =~= digits(d1[0] as nat) + r1);
        assert(values_text(d2) =~= digits(d2[0] as nat) + r2);
        assert(r1[0] == 32u8);
        assert(r2[0] == 32u8);
        lemma_digits_prefix(d1[0] as nat, d2[0] as nat, r1, r2);
        assert(values_text(d1.drop_first()) =~= r1.skip(1));
        assert(values_text(d2.drop_first()) =~= r2.skip(1));
        lemma_values_text_injective(d1.drop_first(), d2.drop_first());
        assert(d1 =~= seq![d1[0]] + d1.drop_first());
        assert(d2 =~= seq![d2[0]] + d2.drop_first());
    }
}

/// What follows the width in the image text.
pub open spec fn after_width(height: nat, max: nat, data: Seq<u32>) -> Seq<u8> {
    seq![32u8] + (digits(height) + after_height(max, data))
}

/// What follows the height in the image text.
pub open spec fn after_height(max: nat, data: Seq<u32>) -> Seq<u8> {
    seq![10u8] + (digits(max) + after_max(data))
}

/// What follows the maximum in the image text.
pub open spec fn after_max(data: Seq<u32>) -> Seq<u8> {
    seq![10u8] + values_text(data)
}

proof fn lemma_pgm_text_shape(w: nat, h: nat, m: nat, d: Seq<u32>)
    ensures
        pgm_text(w, h, m, d) == seq![80u8, 50u8, 10u8] + (digits(w) + after_width(h, m, d)),
{
    assert(pgm_text(w, h, m, d) =~= seq![80u8, 50u8, 10u8] + (digits(w) + after_width(h, m, d)));
}

proof fn lemma_skip_prefix(a: Seq<u8>, b: Seq<u8>)
    ensures
        (a + b).skip(a.len() as int) == b,
{
    assert((a + b).skip(a.len() as int) =~= b);
}

/// The image text determines the width, the height, the maximum and every value: reading
/// back what was written recovers exactly what was written.
pub proof fn lemma_pgm_text_injective(
    w1: nat,
    h1: nat,
    m1: nat,
    d1: Seq<u32>,
    w2: nat,
    h2: nat,
    m2: nat,
    d2: Seq<u32>,
)
    requires
        pgm_text(w1, h1, m1, d1) == pgm_text(w2, h2, m2, d2),
    ensures
        w1 == w2,
        h1 == h2,
        m1 == m2,
        d1 == d2,
{
    lemma_pgm_text_shape(w1, h1, m1, d1);
    lemma_pgm_text_shape(w2, h2, m2, d2);
    let p = seq![80u8, 50u8, 10u8];
    lemma_skip_prefix(p, digits(w1) + after_width(h1, m1, d1));
    lemma_skip_prefix(p, digits(w2) + after_width(h2, m2, d2));
    lemma_digits_prefix(w1, w2, after_width(h1, m1, d1), after_width(h2, m2, d2));
    let s = seq![32u8];
    lemma_skip_prefix(s, digits(h1) + after_height(m1, d1));
    lemma_skip_prefix(s, digits(h2) + after_height(m2, d2));
    lemma_digits_prefix(h1, h2, after_height(m1, d1), after_height(m2, d2));
    let n = seq![10u8];
    lemma_skip_prefix(n, digits(m1) + after_max(d1));
    lemma_skip_prefix(n, digits(m2) + after_max(d2));
    lemma_digits_prefix(m1, m2, after_max(d1), after_max(d2));
    lemma_skip_prefix(n, values_text(d1));
    lemma_skip_prefix(n, values_text(d2));
    lemma_values_text_injective(d1, d2);
}

proof fn lemma_values_text_snoc(d: Seq<u32>, k: int)
    requires
        0 <= k < d.len(),
    ensures
        values_text(d.take(k + 1)) == values_text(d.take(k)) + digits(d[k] as nat) + seq![32u8],
    decreases k,
{
    if k == 0 {
        assert(d.take(1).drop_first() =~= Seq::<u32>::empty());
        assert(values_text(d.take(1).drop_first()) =~= Seq::<u8>::empty());
        assert(d.take(1)[0] == d[0]);
        assert(values_text(d.take(0)) =~= Seq::<u8>::empty());
        assert(values_text(d.take(1)) =~= digits(d[0] as nat) + seq![32u8]);
    } else {
        let t = d.drop_first();
        lemma_values_text_snoc(t, k - 1);
        assert(d.take(k + 1).drop_first() =~= t.take(k));
        assert(d.take(k).drop_first() =~= t.take(k - 1));
        assert(t[k - 1] == d[k]);
        assert(values_text(d.take(k + 1)) =~= values_text(d.take(k)) + digits(d[k] as nat) + seq![32u8]);
    }
}

/// `b` holds the digits of `n` from `pos` on, and no further digit right after them.
pub open spec fn number_at(b: Seq<u8>, pos: int, n: nat) -> bool {
    let end = pos + digits(n).len();
    &&& 0 <= pos
    &&& end <= b.len()
    &&& b.subrange(pos, end) == digits(n)
    &&& (end == b.len() || !is_digit(b[end]))
}

proof fn lemma_number_at(b: Seq<u8>, pos: int, n: nat)
    requires
        number_at(b, pos, n),
    ensures
        digits(n).len() >= 1,
        forall|i: int| pos <= i < pos + digits(n).len() ==> is_digit(#[trigger] b[i]),
        b[pos] == 48 ==> digits(n).len() == 1,
        forall|j: int|
            0 <= j <= digits(n).len() ==> value_of(#[trigger] b.subrange(pos, pos + j)) <= n,
{
    let s = digits(n);
    lemma_digits(n);
    assert forall|i: int| pos <= i < pos + s.len() implies is_digit(#[trigger] b[i]) by {
        assert(b[i] == b.subrange(pos, pos + s.len())[i - pos]);
    }
    assert(b[pos] == s[0]);
    assert forall|j: int| 0 <= j <= s.len() implies value_of(
        #[trigger] b.subrange(pos, pos + j),
    ) <= n by {
        lemma_value_of_prefix(s, j);
        assert(s.take(j) =~= b.subrange(pos, pos + j));
    }
}

/// Reads the decimal number that starts at `pos`, if it has no superfluous leading zero and is
/// at most `limit`; returns it with the position right after its last digit.
pub fn read_number(bytes: &Vec<u8>, pos: usize, limit: u64) -> (r: Option<(u64, usize)>)
    requires
        pos <= bytes@.len(),
    ensures
        r matches Some((v, end)) ==> {
            &&& pos < end <= bytes@.len()
            &&& v <= limit
            &&& number_at(bytes@, pos as int, v as nat)
            &&& end == pos + digits(v as nat).len()
        },
        forall|n: nat|
            n <= limit && #[trigger] number_at(bytes@, pos as int, n) ==> r == Some(
                (n as u64, (pos + digits(n).len()) as usize),
            ),
{
    let ghost b = bytes@;
    let mut k: usize = pos;
    let mut v: u64 = 0;
    while k < bytes.len() && 48 <= bytes[k] && bytes[k] <= 57
        invariant
            b == bytes@,
            pos <= k <= b.len(),
            forall|i: int| pos <= i < k ==> is_digit(#[trigger] b[i]),
            v as nat == value_of(b.subrange(pos as int, k as int)),
            v <= limit,
            k >= pos + 2 ==> b[pos as int] != 48,
        decreases b.len() - k,
    {
        if k > pos && bytes[pos] == 48 {
            proof {
                assert forall|n: nat| n <= limit implies !#[trigger] number_at(b, pos as int, n) by {
                    if number_at(b, pos as int, n) {
                        lemma_number_at(b, pos as int, n);
                        assert(is_digit(b[pos + 1]));
                    }
                }
            }
            return None;
        }
        let d: u64 = (bytes[k] - 48) as u64;
        proof {
            let t = b.subrange(pos as int, k + 1);
            assert(t.drop_last() =~= b.subrange(pos as int, k as int));
            assert(t.last() == b[k as int]);
        }
        if d > limit || v > (limit - d) / 10 {
            proof {
                assert(v * 10 + d > limit) by (nonlinear_arith)
                    requires d > limit || v > (limit - d) / 10, v >= 0, d >= 0;
                assert forall|n: nat| n <= limit implies !#[trigger] number_at(b, pos as int, n) by {
                    if number_at(b, pos as int, n) {
                        lemma_number_at(b, pos as int, n);
                        let l = digits(n).len() as int;
                        if pos + l <= k {
                            assert(is_digit(b[pos + l]));
                        }
                        assert(value_of(b.subrange(pos as int, pos + (k + 1 - pos))) <= n);
                    }
                }
            }
            return None;
        }
        proof {
            assert(v * 10 + d <= limit) by (nonlinear_arith)
                requires d <= limit, v <= (limit - d) / 10, v >= 0, d >= 0;
        }
        v = v * 10 + d;
        k = k + 1;
    }
    if k == pos {
        proof {
            assert forall|n: nat| n <= limit implies !#[trigger] number_at(b, pos as int, n) by {
                if number_at(b, pos as int, n) {
                    lemma_number_at(b, pos as int, n);
                }
            }
        }
        return None;
    }
    proof {
        let s = b.subrange(pos as int, k as int);
        assert(s[0] == b[pos as int]);
        assert(forall|i: int| 0 <= i < s.len() ==> s[i] == b[pos + i]);
        assert(canonical(s));
        lemma_canonical_digits(s);
        assert(number_at(b, pos as int, v as nat));
        assert forall|n: nat| n <= limit && #[trigger] number_at(b, pos as int, n) implies n == v
            && pos + digits(n).len() == k by {
            lemma_number_at(b, pos as int, n);
            let l = digits(n).len() as int;
            if pos + l < k {
                assert(is_digit(b[pos + l]));
            }
            if pos + l > k {
                assert(is_digit(b[k as int]));
            }
            lemma_digits(n);
        }
    }
    Some((v, k))
}

/// `b` is the image text of a `w` by `h` grid with maximum `m` and values `d`, each of them in
/// the range of its field.
pub open spec fn encodes(b: Seq<u8>, w: nat, h: nat, m: nat, d: Seq<u32>) -> bool {
    &&& w <= usize::MAX
    &&& h <= usize::MAX
    &&& m <= u32::MAX
    &&& d.len() == w * h
    &&& b == pgm_text(w, h, m, d)
}

/// A decoded image: its size, its declared maximum and its values in row-major order.
pub struct Pgm {
    pub width: usize,
    pub height: usize,
    pub max: u32,
    pub data: Vec<u32>,
}

proof fn lemma_split_tail(b: Seq<u8>, i: int, x: Seq<u8>, y: Seq<u8>)
    requires
        0 <= i <= b.len(),
        b.subrange(i, b.len() as int) == x + y,
    ensures
        i + x.len() <= b.len(),
        b.subrange(i, i + x.len()) == x,
        b.subrange(i + x.len(), b.len() as int) == y,
        y.len() > 0 ==> b[i + x.len()] == y[0],
{
    let t = b.subrange(i, b.len() as int);
    assert(t.len() == x.len() + y.len());
    assert(b.subrange(i, i + x.len()) =~= x) by {
        assert forall|j: int| 0 <= j < x.len() implies b.subrange(i, i + x.len())[j] == x[j] by {
            assert(t[j] == (x + y)[j]);
        }
    }
    assert(b.subrange(i + x.len(), b.len() as int) =~= y) by {
        assert forall|j: int| 0 <= j < y.len() implies b.subrange(i + x.len(), b.len() as int)[j]
            == y[j] by {
            assert(t[x.len() + j] == (x + y)[x.len() + j]);
        }
    }
    if y.len() > 0 {
        assert(b.subrange(i + x.len(), b.len() as int)[0] == y[0]);
    }
}

proof fn lemma_join(b: Seq<u8>, i: int, j: int, k: int, x: Seq<u8>, y: Seq<u8>)
    requires
        0 <= i <= j <= k <= b.len(),
        b.subrange(i, j) == x,
        b.subrange(j, k) == y,
    ensures
        b.subrange(i, k) == x + y,
{
    assert(b.subrange(i, k) =~= x + y);
}

proof fn lemma_number_before(b: Seq<u8>, pos: int, n: nat, rest: Seq<u8>)
    requires
        0 <= pos <= b.len(),
        b.subrange(pos, b.len() as int) == digits(n) + rest,
        rest.len() > 0,
        !is_digit(rest[0]),
    ensures
        number_at(b, pos, n),
        b.subrange(pos + digits(n).len(), b.len() as int) == rest,
        b[pos + digits(n).len()] == rest[0],
{
    lemma_split_tail(b, pos, digits(n), rest);
}

proof fn lemma_values_text_len(d: Seq<u32>)
    ensures
        values_text(d).len() >= d.len(),
    decreases d.len(),
{
    if d.len() > 0 {
        lemma_values_text_len(d.drop_first());
    }
}

proof fn lemma_values_text_skip(d: Seq<u32>, k: int)
    requires
        0 <= k < d.len(),
    ensures
        values_text(d.skip(k)) == digits(d[k] as nat) + (seq![32u8] + values_text(d.skip(k + 1))),
{
    let s = d.skip(k);
    assert(s.drop_first() =~= d.skip(k + 1));
    assert(s[0] == d[k]);
    assert(values_text(s) =~= digits(d[k] as nat) + (seq![32u8] + values_text(d.skip(k + 1))));
}

/// Reads image text back: succeeds exactly on the text of some image, and then returns that image.
#[verifier::rlimit(50)]
pub fn parse_pgm(bytes: &Vec<u8>) -> (r: Option<Pgm>)
    ensures
        r matches Some(p) ==> encodes(bytes@, p.width as nat, p.height as nat, p.max as nat, p.data@),
        forall|w: nat, h: nat, m: nat, d: Seq<u32>|
            #[trigger] encodes(bytes@, w, h, m, d) ==> (r matches Some(p) && p.width == w
                && p.height == h && p.max == m && p.data@ == d),
{
    let ghost b = bytes@;
    let ghost len = b.len() as int;
    let ghost good = exists|w: nat, h: nat, m: nat, d: Seq<u32>| encodes(b, w, h, m, d);
    let ghost wit: (nat, nat, nat, Seq<u32>) = if good {
        choose|w: nat, h: nat, m: nat, d: Seq<u32>| encodes(b, w, h, m, d)
    } else {
        (0, 0, 0, Seq::empty())
    };
    let ghost gw = wit.0;
    let ghost gh = wit.1;
    let ghost gm = wit.2;
    let ghost gd = wit.3;
    proof {
        if good {
            assert(encodes(b, gw, gh, gm, gd));
            lemma_pgm_text_shape(gw, gh, gm, gd);
            assert(b.subrange(0, len) =~= b);
            lemma_split_tail(b, 0, seq![80u8, 50u8, 10u8], digits(gw) + after_width(gh, gm, gd));
        }
    }
    if bytes.len() < 3 || bytes[0] != 80 || bytes[1] != 50 || bytes[2] != 10 {
        proof {
            if good {
                assert(b.subrange(0, 3)[0] == 80u8 && b.subrange(0, 3)[1] == 50u8 && b.subrange(0, 3)[2] == 10u8);
            }
        }
        return None;
    }
    proof {
        if good {
            lemma_number_before(b, 3, gw, after_width(gh, gm, gd));
        }
    }
    let (w, w_end) = match read_number(bytes, 3, usize::MAX as u64) {
        Some(x) => x,
        None => {
            return None;
        },
    };
    if w_end >= bytes.len() || bytes[w_end] != 32 {
        return None;
    }
    proof {
        if good {
            lemma_split_tail(b, w_end as int, seq![32u8], digits(gh) + after_height(gm, gd));
            lemma_number_before(b, w_end + 1, gh, after_height(gm, gd));
        }
    }
    let (h, h_end) = match read_number(bytes, w_end + 1, usize::MAX as u64) {
        Some(x) => x,
        None => {
            return None;
        },
    };
    if h_end >= bytes.len() || bytes[h_end] != 10 {
        return None;
    }
    proof {
        if good {
            lemma_split_tail(b, h_end as int, seq![10u8], digits(gm) + after_max(gd));
            lemma_number_before(b, h_end + 1, gm, after_max(gd));
        }
    }
    let (m, m_end) = match read_number(bytes, h_end + 1, u32::MAX as u64) {
        Some(x) => x,
        None => {
            return None;
        },
    };
    if m_end >= bytes.len() || bytes[m_end] != 10 {
        return None;
    }
    proof {
        if good {
            lemma_split_tail(b, m_end as int, seq![10u8], values_text(gd));
            lemma_values_text_len(gd);
        }
    }
    let width = w as usize;
    let height = h as usize;
    let max = m as u32;
    if height != 0 && width > usize::MAX / height {
        proof {
            if good {
                assert(width * height > usize::MAX) by (nonlinear_arith)
                    requires height != 0, width > usize::MAX / height, height > 0;
            }
        }
        return None;
    }
    proof {
        assert(width * height <= usize::MAX) by (nonlinear_arith)
            requires height == 0 || width <= usize::MAX / height, height >= 0, width >= 0;
        assert(b.subrange(0, 3) =~= seq![80u8, 50u8, 10u8]);
        assert(b.subrange(w_end as int, w_end + 1) =~= seq![32u8]);
        assert(b.subrange(h_end as int, h_end + 1) =~= seq![10u8]);
        assert(b.subrange(m_end as int, m_end + 1) =~= seq![10u8]);
        lemma_join(b, 0, 3, w_end as int, seq![80u8, 50u8, 10u8], digits(w as nat));
        lemma_join(b, 0, w_end as int, w_end + 1, seq![80u8, 50u8, 10u8] + digits(w as nat), seq![32u8]);
        lemma_join(b, 0, w_end + 1, h_end as int, seq![80u8, 50u8, 10u8] + digits(w as nat) + seq![32u8], digits(h as nat));
        lemma_join(b, 0, h_end as int, h_end + 1, seq![80u8, 50u8, 10u8] + digits(w as nat) + seq![32u8] + digits(h as nat), seq![10u8]);
        lemma_join(b, 0, h_end + 1, m_end as int, seq![80u8, 50u8, 10u8] + digits(w as nat) + seq![32u8] + digits(h as nat) + seq![10u8], digits(m as nat));
        lemma_join(b, 0, m_end as int, m_end + 1, seq![80u8, 50u8, 10u8] + digits(w as nat) + seq![32u8] + digits(h as nat) + seq![10u8] + digits(m as nat), seq![10u8]);
        assert(values_text(Seq::<u32>::empty()) == Seq::<u8>::empty());
        assert(b.subrange(0, m_end + 1) =~= header_text(w as nat, h as nat, m as nat) + values_text(Seq::<u32>::empty()));
        if good {
            assert(gd.skip(0) =~= gd);
            assert(gd.take(0) =~= Seq::<u32>::empty());
        }
    }
    let n: usize = width * height;
    proof {
        if good {
            assert(gd.len() == n);
        }
    }
    let mut data: Vec<u32> = Vec::new();
    let mut pos: usize = m_end + 1;
    let mut k: usize = 0;
    while k < n
        invariant
            b == bytes@,
            len == b.len(),
            good == exists|w: nat, h: nat, m: nat, d: Seq<u32>| encodes(b, w, h, m, d),
            pos <= len,
            k <= n,
            n == width * height,
            data@.len() == k,
            b.subrange(0, pos as int) == header_text(w as nat, h as nat, m as nat) + values_text(
                data@,
            ),
            good ==> (w == gw && h == gh && m == gm && encodes(b, gw, gh, gm, gd) && gd.len() == n
                && data@ == gd.take(k as int) && b.subrange(pos as int, len) == values_text(
                gd.skip(k as int),
            )),
        decreases n - k,
    {
        proof {
            if good {
                lemma_values_text_skip(gd, k as int);
                lemma_number_before(
                    b,
                    pos as int,
                    gd[k as int] as nat,
                    seq![32u8] + values_text(gd.skip(k + 1)),
                );
            }
        }
        let (v, e) = match read_number(bytes, pos, u32::MAX as u64) {
            Some(x) => x,
            None => {
                return None;
            },
        };
        if e >= bytes.len() || bytes[e] != 32 {
            return None;
        }
        let ghost prev = data@;
        data.push(v as u32);
        proof {
            assert(b.subrange(e as int, e + 1) =~= seq![32u8]);
            lemma_join(b, 0, pos as int, e as int, header_text(w as nat, h as nat, m as nat) + values_text(prev), digits(v as nat));
            lemma_join(b, 0, e as int, e + 1, header_text(w as nat, h as nat, m as nat) + values_text(prev) + digits(v as nat), seq![32u8]);
            lemma_values_text_snoc(data@, k as int);
            assert(data@.take(k + 1) =~= data@);
            assert(data@.take(k as int) =~= prev);
            assert(b.subrange(0, e + 1) =~= header_text(w as nat, h as nat, m as nat) + values_text(data@));
            if good {
                lemma_split_tail(b, e as int, seq![32u8], values_text(gd.skip(k + 1)));
                assert(data@ =~= gd.take(k + 1));
            }
        }
        pos = e + 1;
        k = k + 1;
    }
    if pos != bytes.len() {
        proof {
            if good {
                assert(gd.skip(k as int) =~= Seq::<u32>::empty());
                assert(values_text(gd.skip(k as int)) == Seq::<u8>::empty());
            }
        }
        return None;
    }
    proof {
        assert(b.subrange(0, len) =~= b);
        assert(encodes(b, width as nat, height as nat, max as nat, data@));
        assert forall|w2: nat, h2: nat, m2: nat, d2: Seq<u32>|
            #[trigger] encodes(b, w2, h2, m2, d2) implies w2 == width && h2 == height && m2 == max
            && d2 == data@ by {
            lemma_pgm_text_injective(w2, h2, m2, d2, width as nat, height as nat, max as nat, data@);
        }
    }
    Some(Pgm { width, height, max, data })
}

/// Appends the decimal digits of `n`.
pub fn push_decimal(out: &mut Vec<u8>, n: u64)
    ensures
        final(out)@ == old(out)@ + digits(n as nat),
    decreases n,
{
    if n >= 10 {
        push_decimal(out, n / 10);
    }
    out.push((48 + n % 10) as u8);
    proof {
        assert(final(out)@ =~= old(out)@ + digits(n as nat));
    }
}

/// Appends the bytes of `tail`.
fn push_all(out: &mut Vec<u8>, tail: &[u8])
    ensures
        final(out)@ == old(out)@ + tail@,
{
    let mut k: usize = 0;
    while k < tail.len()
        invariant
            k <= tail@.len(),
            out@ == old(out)@ + tail@.take(k as int),
        decreases tail@.len() - k,
    {
        out.push(tail[k]);
        proof {
            assert(tail@.take(k + 1) =~= tail@.take(k as int).push(tail@[k as int]));
        }
        k = k + 1;
    }
    proof {
        assert(tail@.take(tail@.len() as int) =~= tail@);
    }
}

/// The image text for a `width` by `height` grid with maximum value `max` and the values
/// `data` in row-major order, each followed by a space.
pub fn encode_pgm(width: usize, height: usize, max: u32, data: &Vec<u32>) -> (r: Vec<u8>)
    ensures
        r@ == pgm_text(width as nat, height as nat, max as nat, data@),
{
    let mut out: Vec<u8> = Vec::new();
    push_all(&mut out, &[80u8, 50u8, 10u8]);
    push_decimal(&mut out, width as u64);
    out.push(32u8);
    push_decimal(&mut out, height as u64);
    out.push(10u8);
    push_decimal(&mut out, max as u64);
    out.push(10u8);
    proof {
        assert(out@ =~= header_text(width as nat, height as nat, max as nat));
        assert(data@.take(0) =~= Seq::<u32>::empty());
        assert(out@ =~= header_text(width as nat, height as nat, max as nat) + values_text(
            data@.take(0),
        ));
    }
    let ghost head = out@;
    let mut k: usize = 0;
    while k < data.len()
        invariant
            k <= data@.len(),
            head == header_text(width as nat, height as nat, max as nat),
            out@ == head + values_text(data@.take(k as int)),
        decreases data@.len() - k,
    {
        proof {
            lemma_values_text_snoc(data@, k as int);
        }
        push_decimal(&mut out, data[k] as u64);
        out.push(32u8);
        proof {
            assert(out@ =~= head + values_text(data@.take(k + 1)));
        }
        k = k + 1;
    }
    proof {
        assert(data@.take(data@.len() as int) =~= data@);
    }
    out
}

} // verus!
