//! Binary-digit codecs: reading unsigned integers out of streams of
//! binary digits, and cutting a digit packet into fields of given widths.
use vstd::prelude::*;
use vstd::arithmetic::power2::{pow2, lemma_pow2_unfold, lemma_pow2_pos};

verus! {

/// The value of a digit sequence read most significant digit first:
/// each digit weighs twice as much as the one after it.
pub open spec fn b2d_spec(s: Seq<usize>) -> nat
    decreases s.len(),
{
    if s.len() == 0 {
        0
    } else {
        2 * b2d_spec(s.drop_last()) + s.last() as nat
    }
}

/// Every digit is a binary digit.
pub open spec fn all_binary(s: Seq<usize>) -> bool {
    forall|i: int| 0 <= i < s.len() ==> #[trigger] s[i] <= 1
}

/// `b2d` runs without overflow exactly on these inputs: the weight of the
/// first digit must be a representable shift, and the value must fit.
pub open spec fn b2d_fits(s: Seq<usize>) -> bool {
    &&& s.len() <= usize::BITS
    &&& b2d_spec(s) <= usize::MAX
}

/// Sum of a sequence of field widths.
pub open spec fn width_sum(is: Seq<usize>) -> nat
    decreases is.len(),
{
    if is.len() == 0 {
        0
    } else {
        width_sum(is.drop_last()) + is.last() as nat
    }
}

/// Offset of field `k` in a packet cut by widths `is`.
pub open spec fn field_start(is: Seq<usize>, k: int) -> nat {
    width_sum(is.take(k))
}

/// The digits of field `k` of packet `x` cut by widths `is`.
pub open spec fn field(x: Seq<usize>, is: Seq<usize>, k: int) -> Seq<usize> {
    x.subrange(field_start(is, k) as int, field_start(is, k) + is[k])
}

/// `eat` runs without a panic exactly on these inputs: the widths fit in
/// the packet and every field can be read by `b2d`.
pub open spec fn eat_fits(x: Seq<usize>, is: Seq<usize>) -> bool {
    &&& width_sum(is) <= x.len()
    &&& forall|k: int| 0 <= k < is.len() ==> #[trigger] b2d_fits(field(x, is, k))
}

/// The fields of `x` cut by widths `is`, each read as a number.
pub open spec fn eat_spec(x: Seq<usize>, is: Seq<usize>) -> Seq<nat> {
    Seq::new(is.len(), |k: int| b2d_spec(field(x, is, k)))
}

/// `out` holds the fields of `x` cut by widths `is`, each read as a number.
pub open spec fn is_eaten(out: Seq<usize>, x: Seq<usize>, is: Seq<usize>) -> bool {
    &&& out.len() == is.len()
    &&& forall|k: int| 0 <= k < is.len() ==> out[k] as nat == #[trigger] eat_spec(x, is)[k]
}

/// Reassembles numbers read from consecutive fields of the given widths into
/// the number the concatenated fields stand for.
pub open spec fn recombine(vals: Seq<nat>, is: Seq<usize>) -> nat
    decreases is.len(),
{
    if is.len() == 0 || vals.len() == 0 {
        0
    } else {
        recombine(vals.drop_last(), is.drop_last()) * pow2(is.last() as nat) + vals.last()
    }
}

proof fn lemma_pow2_zero()
    ensures
        pow2(0) == 1,
{
    vstd::arithmetic::power2::lemma_pow2(0);
    reveal(vstd::arithmetic::power::pow);
}

/// The value of a prefix never exceeds the value of the whole sequence.
pub proof fn lemma_b2d_prefix_le(s: Seq<usize>, k: int)
    requires
        0 <= k <= s.len(),
    ensures
        b2d_spec(s.take(k)) <= b2d_spec(s),
    decreases s.len(),
{
    if k < s.len() {
        assert(s.drop_last().take(k) =~= s.take(k));
        lemma_b2d_prefix_le(s.drop_last(), k);
    } else {
        assert(s.take(k) =~= s);
    }
}

/// Positional law: the value of a concatenation is the value of the front
/// part shifted by the length of the back part, plus the value of the back.
pub proof fn lemma_b2d_concat(a: Seq<usize>, b: Seq<usize>)
    ensures
        b2d_spec(a + b) == b2d_spec(a) * pow2(b.len()) + b2d_spec(b),
    decreases b.len(),
{
    if b.len() == 0 {
        assert(a + b =~= a);
        lemma_pow2_zero();
        assert(b2d_spec(b) == 0);
    } else {
        let bp = b.drop_last();
        assert((a + b).drop_last() =~= a + bp);
        assert((a + b).last() == b.last());
        lemma_b2d_concat(a, bp);
        lemma_pow2_unfold(b.len());
        let x = b2d_spec(a) as int;
        let p = pow2(bp.len()) as int;
        let y = b2d_spec(bp) as int;
        assert(b2d_spec(a + b) == 2 * b2d_spec(a + bp) + b.last());
        assert(b2d_spec(b) == 2 * y + b.last());
        assert(2 * (x * p + y) == x * (2 * p) + 2 * y) by (nonlinear_arith);
        assert(pow2(b.len()) == 2 * p);
        assert(b2d_spec(a + bp) == x * p + y);
    }
}

/// A sequence of binary digits of length `n` stands for a number below `2^n`.
pub proof fn lemma_b2d_binary_bound(s: Seq<usize>)
    requires
        all_binary(s),
    ensures
        b2d_spec(s) < pow2(s.len()),
    decreases s.len(),
{
    if s.len() == 0 {
        lemma_pow2_zero();
    } else {
        assert(all_binary(s.drop_last())) by {
            assert forall|i: int| 0 <= i < s.drop_last().len() implies #[trigger] s.drop_last()[i] <= 1 by {
                assert(s.drop_last()[i] == s[i]);
            }
        }
        assert(s.last() == s[s.len() - 1]);
        lemma_b2d_binary_bound(s.drop_last());
        lemma_pow2_unfold(s.len());
    }
}

/// Binary digit sequences of at most `usize::BITS` digits can always be read.
pub proof fn lemma_binary_fits(s: Seq<usize>)
    requires
        all_binary(s),
        s.len() <= usize::BITS,
    ensures
        b2d_fits(s),
{
    lemma_b2d_binary_bound(s);
    if s.len() < usize::BITS {
        vstd::arithmetic::power2::lemma_pow2_strictly_increases(s.len(), usize::BITS as nat);
    }
    vstd::arithmetic::power2::lemma2_to64();
    assert(usize::BITS == 32 || usize::BITS == 64);
}

/// Reads a sequence of digits, most significant first, as an unsigned integer.
pub fn b2d(xs: &[usize]) -> (r: usize)
    requires
        b2d_fits(xs@),
    ensures
        r == b2d_spec(xs@),
{
    let mut acc: usize = 0;
    let mut i: usize = 0;
    while i < xs.len()
        invariant
            i <= xs.len(),
            acc == b2d_spec(xs@.take(i as int)),
            b2d_spec(xs@) <= usize::MAX,
        decreases xs.len() - i,
    {
        proof {
            lemma_b2d_prefix_le(xs@, i + 1);
            assert(xs@.take(i + 1).drop_last() =~= xs@.take(i as int));
        }
        acc = acc * 2 + xs[i];
        i = i + 1;
    }
    assert(xs@.take(xs.len() as int) =~= xs@);
    acc
}

/// Like `b2d`, but answers `None` on exactly the inputs on which `b2d`
/// has no defined result.
pub fn b2d_checked(xs: &[usize]) -> (r: Option<usize>)
    ensures
        r is Some <==> b2d_fits(xs@),
        r matches Some(v) ==> v == b2d_spec(xs@),
{
    if xs.len() > usize::BITS as usize {
        return None;
    }
    let mut acc: usize = 0;
    let mut i: usize = 0;
    while i < xs.len()
        invariant
            i <= xs.len(),
            xs.len() <= usize::BITS,
            acc == b2d_spec(xs@.take(i as int)),
        decreases xs.len() - i,
    {
        proof {
            assert(xs@.take(i + 1).drop_last() =~= xs@.take(i as int));
        }
        let d = acc.checked_mul(2);
        let n = match d {
            Some(d) => d.checked_add(xs[i]),
            None => None,
        };
        match n {
            Some(n) => {
                acc = n;
            },
            None => {
                proof {
                    lemma_b2d_prefix_le(xs@, i + 1);
                }
                return None;
            },
        }
        i = i + 1;
    }
    assert(xs@.take(xs.len() as int) =~= xs@);
    Some(acc)
}

/// Widths of a prefix add up to no more than all widths.
pub proof fn lemma_width_sum_prefix(is: Seq<usize>, k: int)
    requires
        0 <= k <= is.len(),
    ensures
        width_sum(is.take(k)) <= width_sum(is),
        k < is.len() ==> width_sum(is.take(k + 1)) == width_sum(is.take(k)) + is[k],
    decreases is.len(),
{
    if k < is.len() {
        assert(is.take(k + 1).drop_last() =~= is.take(k));
        assert(is.drop_last().take(k) =~= is.take(k));
        lemma_width_sum_prefix(is.drop_last(), k);
        if k + 1 == is.len() {
            assert(is.take(k + 1) =~= is);
        } else {
            assert(is.drop_last().take(k + 1) =~= is.take(k + 1));
            lemma_width_sum_prefix(is.drop_last(), k + 1);
        }
    } else {
        assert(is.take(k) =~= is);
    }
}

/// Cuts a packet of digits into consecutive fields of the given widths and
/// reads each field as an unsigned integer.
pub fn eat(x: &[usize], is: &[usize]) -> (out: Vec<usize>)
    requires
        eat_fits(x@, is@),
    ensures
        is_eaten(out@, x@, is@),
{
    let mut i: usize = 0;
    let mut out: Vec<usize> = Vec::new();
    let n = is.len();
    for k in 0..n
        invariant
            n == is@.len(),
            eat_fits(x@, is@),
            i == field_start(is@, k as int),
            out@.len() == k,
            forall|j: int| 0 <= j < k ==> out@[j] as nat == #[trigger] eat_spec(x@, is@)[j],
    {
        let index = is[k];
        proof {
            lemma_width_sum_prefix(is@, k + 1);
            lemma_width_sum_prefix(is@, k as int);
            assert(b2d_fits(field(x@, is@, k as int)));
            assert(width_sum(is@.take(k + 1)) == i + index);
            assert(i + index <= x@.len());
        }
        assert(i + index <= x.len());
        let end = i + index;
        let v = b2d(&x[i..end]);
        out.push(v);
        i = end;
    }
    out
}

/// Law: reading the fields of a packet and reassembling them by their widths
/// gives the value of the digits they cover.
pub proof fn lemma_eat_recombine(x: Seq<usize>, is: Seq<usize>)
    requires
        width_sum(is) <= x.len(),
    ensures
        recombine(eat_spec(x, is), is) == b2d_spec(x.take(width_sum(is) as int)),
    decreases is.len(),
{
    if is.len() == 0 {
        assert(x.take(0) =~= Seq::<usize>::empty());
    } else {
        let n = is.len() - 1;
        let isp = is.drop_last();
        assert(is.take(n) =~= isp);
        lemma_width_sum_prefix(is, n);
        let e = eat_spec(x, is);
        assert(e.drop_last() =~= eat_spec(x, isp)) by {
            assert forall|k: int| 0 <= k < n implies #[trigger] e.drop_last()[k] == eat_spec(x, isp)[k] by {
                assert(is.take(k) =~= isp.take(k));
            }
        }
        lemma_eat_recombine(x, isp);
        let w = width_sum(isp) as int;
        assert(x.take(w + is[n]) =~= x.take(w) + field(x, is, n));
        lemma_b2d_concat(x.take(w), field(x, is, n));
        assert(is.last() == is[n]);
    }
}

/// Adds up field widths, or answers `None` when the sum overflows.
fn width_sum_checked(is: &[usize]) -> (r: Option<usize>)
    ensures
        r is Some <==> width_sum(is@) <= usize::MAX,
        r matches Some(v) ==> v == width_sum(is@),
{
    let mut total: usize = 0;
    let mut k: usize = 0;
    while k < is.len()
        invariant
            k <= is.len(),
            total == width_sum(is@.take(k as int)),
        decreases is.len() - k,
    {
        proof {
            lemma_width_sum_prefix(is@, k as int);
            lemma_width_sum_prefix(is@, k + 1);
        }
        match total.checked_add(is[k]) {
            Some(t) => {
                total = t;
            },
            None => {
                return None;
            },
        }
        k = k + 1;
    }
    assert(is@.take(is.len() as int) =~= is@);
    Some(total)
}

/// Tells whether `eat` can cut packet `x` by widths `is`.
pub fn fields_fit(x: &[usize], is: &[usize]) -> (r: bool)
    ensures
        r == eat_fits(x@, is@),
{
    let mut i: usize = 0;
    let n = is.len();
    for k in 0..n
        invariant
            n == is@.len(),
            i == field_start(is@, k as int),
            i <= x@.len(),
            forall|j: int| 0 <= j < k ==> #[trigger] b2d_fits(field(x@, is@, j)),
    {
        proof {
            lemma_width_sum_prefix(is@, k as int);
            lemma_width_sum_prefix(is@, k + 1);
        }
        let w = is[k];
        if x.len() - i < w {
            proof {
                assert(width_sum(is@.take(k + 1)) == i + w);
                assert(width_sum(is@) >= i + w);
                assert(!eat_fits(x@, is@));
            }
            return false;
        }
        let end = i + w;
        let piece = &x[i..end];
        assert(piece@ == field(x@, is@, k as int));
        if b2d_checked(piece).is_none() {
            assert(!b2d_fits(field(x@, is@, k as int)));
            return false;
        }
        i = end;
    }
    proof {
        assert(is@.take(n as int) =~= is@);
    }
    true
}

/// Applies `eat` with the same widths to each packet of a stream.
pub fn binconv(packets: &Vec<Vec<usize>>, l: &[usize]) -> (out: Vec<Vec<usize>>)
    requires
        forall|i: int| 0 <= i < packets@.len() ==> #[trigger] eat_fits(packets@[i]@, l@),
    ensures
        out@.len() == packets@.len(),
        forall|i: int| 0 <= i < packets@.len() ==> is_eaten(#[trigger] out@[i]@, packets@[i]@, l@),
{
    let mut out: Vec<Vec<usize>> = Vec::new();
    for i in 0..packets.len()
        invariant
            forall|i: int| 0 <= i < packets@.len() ==> #[trigger] eat_fits(packets@[i]@, l@),
            out@.len() == i,
            forall|j: int| 0 <= j < i ==> is_eaten(#[trigger] out@[j]@, packets@[j]@, l@),
    {
        let fields = eat(packets[i].as_slice(), l);
        out.push(fields);
    }
    out
}

/// `decode` runs without a panic exactly on these inputs: the widths add up
/// without overflow, and a packet long enough for them can be cut by them.
pub open spec fn decode_fits(p: Seq<usize>, t: Seq<usize>) -> bool {
    &&& width_sum(t) <= usize::MAX
    &&& p.len() >= width_sum(t) ==> eat_fits(p, t)
}

/// Tells whether `decode` can decode packet `p` with widths `t`.
pub fn decode_ok(p: &[usize], t: &[usize]) -> (r: bool)
    ensures
        r == decode_fits(p@, t@),
{
    match width_sum_checked(t) {
        None => false,
        Some(total) => p.len() < total || fields_fit(p, t),
    }
}

/// Decodes one packet: cuts it into fields of widths `t` when it is at least
/// as long as the widths add up to; a shorter packet gives nothing.
pub fn decode(p: &[usize], t: &[usize]) -> (r: Option<Vec<usize>>)
    requires
        decode_fits(p@, t@),
    ensures
        r is Some <==> p@.len() >= width_sum(t@),
        r matches Some(v) ==> is_eaten(v@, p@, t@),
{
    let total = match width_sum_checked(t) {
        Some(v) => v,
        None => {
            proof {
                assert(false);
            }
            0
        },
    };
    if p.len() >= total {
        Some(eat(p, t))
    } else {
        None
    }
}

/// Packets long enough for the widths `t`.
pub open spec fn long_enough(packets: Seq<Vec<usize>>, t: Seq<usize>) -> Seq<Vec<usize>>
    decreases packets.len(),
{
    if packets.len() == 0 {
        Seq::empty()
    } else if packets.last()@.len() >= width_sum(t) {
        long_enough(packets.drop_last(), t).push(packets.last())
    } else {
        long_enough(packets.drop_last(), t)
    }
}

/// Law: the packets kept for decoding are exactly the packets at least as
/// long as the widths add up to, in the order they arrive.
pub proof fn lemma_long_enough_keeps_order(packets: Seq<Vec<usize>>, t: Seq<usize>)
    ensures
        long_enough(packets, t) == packets.filter(|p: Vec<usize>| p@.len() >= width_sum(t)),
    decreases packets.len(),
{
    reveal(Seq::filter);
    if packets.len() > 0 {
        lemma_long_enough_keeps_order(packets.drop_last(), t);
    }
}

/// Law: decoding a stream in two parts gives the packets decoded from the
/// first part, then those from the second; a single packet gives itself
/// when it is long enough and nothing otherwise.
pub proof fn lemma_long_enough_concat(ps: Seq<Vec<usize>>, qs: Seq<Vec<usize>>, t: Seq<usize>)
    ensures
        long_enough(ps + qs, t) == long_enough(ps, t) + long_enough(qs, t),
        forall|p: Vec<usize>| #[trigger] long_enough(seq![p], t) == if p@.len() >= width_sum(t) {
            seq![p]
        } else {
            Seq::<Vec<usize>>::empty()
        },
{
    let pred = |p: Vec<usize>| p@.len() >= width_sum(t);
    lemma_long_enough_keeps_order(ps + qs, t);
    lemma_long_enough_keeps_order(ps, t);
    lemma_long_enough_keeps_order(qs, t);
    Seq::filter_distributes_over_add(ps, qs, pred);
    assert forall|p: Vec<usize>| #[trigger] long_enough(seq![p], t) == if p@.len() >= width_sum(t) {
        seq![p]
    } else {
        Seq::<Vec<usize>>::empty()
    } by {
        let s = seq![p];
        assert(s.drop_last() =~= Seq::<Vec<usize>>::empty());
        assert(long_enough(Seq::<Vec<usize>>::empty(), t) =~= Seq::<Vec<usize>>::empty());
        assert(long_enough(s.drop_last(), t) =~= Seq::<Vec<usize>>::empty());
        assert(s.last() == p);
        if p@.len() >= width_sum(t) {
            assert(Seq::<Vec<usize>>::empty().push(p) =~= seq![p]);
        }
    }
}

/// Law: each packet that `decoder` sends is the `k`-th long-enough packet
/// of its input cut into fields, and they come out in the order the
/// packets arrived: a packet that arrives before another is decoded first.
pub proof fn lemma_decoder_in_order(packets: Seq<Vec<usize>>, t: Seq<usize>, i: int, j: int)
    requires
        0 <= i < j < packets.len(),
        packets[i]@.len() >= width_sum(t),
        packets[j]@.len() >= width_sum(t),
    ensures
        exists|a: int, b: int|
            0 <= a < b < long_enough(packets, t).len() && #[trigger] long_enough(packets, t)[a]
                == packets[i] && #[trigger] long_enough(packets, t)[b] == packets[j],
{
    let pre = packets.take(j);
    let post = packets.skip(j);
    assert(packets =~= pre + post);
    lemma_long_enough_concat(pre, post, t);
    let pre1 = pre.take(i);
    let mid = pre.skip(i);
    assert(pre =~= pre1 + mid);
    lemma_long_enough_concat(pre1, mid, t);
    let mid2 = mid.skip(1);
    assert(mid =~= seq![packets[i]] + mid2);
    lemma_long_enough_concat(seq![packets[i]], mid2, t);
    let post2 = post.skip(1);
    assert(post =~= seq![packets[j]] + post2);
    lemma_long_enough_concat(seq![packets[j]], post2, t);
    let a = long_enough(pre1, t).len() as int;
    let b = long_enough(pre, t).len() as int;
    assert(long_enough(packets, t)[a] == packets[i]);
    assert(long_enough(packets, t)[b] == packets[j]);
}

/// Decodes every packet that is at least as long as the widths add up to,
/// and drops shorter packets.
pub fn decoder(packets: &Vec<Vec<usize>>, t: &[usize]) -> (out: Vec<Vec<usize>>)
    requires
        width_sum(t@) <= usize::MAX,
        forall|i: int| 0 <= i < packets@.len() && packets@[i]@.len() >= width_sum(t@) ==>
            #[trigger] eat_fits(packets@[i]@, t@),
    ensures
        out@.len() == long_enough(packets@, t@).len(),
        forall|i: int| 0 <= i < out@.len() ==>
            is_eaten(#[trigger] out@[i]@, long_enough(packets@, t@)[i]@, t@),
{
    let mut out: Vec<Vec<usize>> = Vec::new();
    for i in 0..packets.len()
        invariant
            width_sum(t@) <= usize::MAX,
            forall|i: int| 0 <= i < packets@.len() && packets@[i]@.len() >= width_sum(t@) ==>
                #[trigger] eat_fits(packets@[i]@, t@),
            out@.len() == long_enough(packets@.take(i as int), t@).len(),
            forall|j: int| 0 <= j < out@.len() ==>
                is_eaten(#[trigger] out@[j]@, long_enough(packets@.take(i as int), t@)[j]@, t@),
    {
        proof {
            assert(packets@.take(i + 1).drop_last() =~= packets@.take(i as int));
            assert(packets@.take(i + 1).last() == packets@[i as int]);
        }
        match decode(packets[i].as_slice(), t) {
            Some(fields) => {
                out.push(fields);
            },
            None => {},
        }
    }
    assert(packets@.take(packets.len() as int) =~= packets@);
    out
}

} // verus!
