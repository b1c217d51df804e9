//! Packet decoders for two wireless temperature sensors.
//!
//! Sensor A sends 36 binary digits: id, channel, temperature and humidity.
//! Sensor B repeats its 50-digit message three times in one burst of 184 or
//! 195 digits; two equal copies out of three decide the message.
use vstd::prelude::*;
use crate::bits::{eat, eat_fits, is_eaten, b2d_spec, width_sum, field, eat_spec};

verus! {

/// Field widths of a sensor A packet: id, channel, temperature, humidity.
pub open spec fn temp_a_widths() -> Seq<usize> {
    seq![14usize, 2, 12, 8]
}

/// Field widths of a sensor B message.
pub open spec fn temp_b_widths() -> Seq<usize> {
    seq![6usize, 5, 8, 2, 9, 1, 4, 2, 9, 4]
}

/// The length of a sensor A packet.
pub const TEMP_A_LEN: usize = 36;

/// The length of a sensor B message.
pub const TEMP_B_LEN: usize = 50;

/// Field widths of a sensor A packet.
pub fn temp_a_fields() -> (w: Vec<usize>)
    ensures
        w@ == temp_a_widths(),
{
    let w: Vec<usize> = vec![14, 2, 12, 8];
    assert(w@ =~= temp_a_widths());
    w
}

/// Field widths of a sensor B message.
pub fn temp_b_fields() -> (w: Vec<usize>)
    ensures
        w@ == temp_b_widths(),
{
    let w: Vec<usize> = vec![6, 5, 8, 2, 9, 1, 4, 2, 9, 4];
    assert(w@ =~= temp_b_widths());
    w
}

/// Decodes a sensor A burst: a burst of exactly 36 digits is cut into its
/// fields; any other burst is no packet.
pub fn temp_packet_a(bits: &[usize]) -> (r: Option<Vec<usize>>)
    requires
        bits@.len() == TEMP_A_LEN ==> eat_fits(bits@, temp_a_widths()),
    ensures
        bits@.len() == TEMP_A_LEN <==> r is Some,
        r matches Some(v) ==> is_eaten(v@, bits@, temp_a_widths()),
{
    if bits.len() == TEMP_A_LEN {
        let w = temp_a_fields();
        Some(eat(bits, w.as_slice()))
    } else {
        None
    }
}

/// The three copies of the message in a sensor B burst, if the burst has one
/// of the two lengths the sensor sends.
pub open spec fn temp_b_copies(bits: Seq<usize>) -> Option<(Seq<usize>, Seq<usize>, Seq<usize>)> {
    if bits.len() == 184 {
        Some((bits.subrange(4, 54), bits.subrange(69, 119), bits.subrange(134, 184)))
    } else if bits.len() == 195 {
        Some((bits.subrange(15, 65), bits.subrange(80, 130), bits.subrange(145, 195)))
    } else {
        None
    }
}

/// Majority of three copies: the first copy when another copy agrees with
/// it, else the second when the third agrees with it, else nothing.
pub open spec fn vote(a: Seq<usize>, b: Seq<usize>, c: Seq<usize>) -> Option<Seq<usize>> {
    if a == b || a == c {
        Some(a)
    } else if b == c {
        Some(b)
    } else {
        None
    }
}

/// The message a sensor B burst carries, if its copies agree.
pub open spec fn temp_b_message(bits: Seq<usize>) -> Option<Seq<usize>> {
    match temp_b_copies(bits) {
        Some((a, b, c)) => vote(a, b, c),
        None => None,
    }
}

/// Law: one corrupted copy out of three does not change the message.
pub proof fn lemma_vote_corrects(p: Seq<usize>, x: Seq<usize>)
    ensures
        vote(p, p, x) == Some(p),
        vote(p, x, p) == Some(p),
        vote(x, p, p) == Some(p),
{
}

/// Law: a 184-digit burst has its copies at digits 4..54, 69..119 and
/// 134..184; it carries a message exactly when two of them agree, and the
/// message is a copy that another copy agrees with.
pub proof fn lemma_temp_b_184(bits: Seq<usize>)
    requires
        bits.len() == 184,
    ensures
        temp_b_message(bits) is Some <==> (bits.subrange(4, 54) == bits.subrange(69, 119)
            || bits.subrange(4, 54) == bits.subrange(134, 184) || bits.subrange(69, 119)
            == bits.subrange(134, 184)),
        temp_b_message(bits) matches Some(m) ==> {
            ||| m == bits.subrange(4, 54) && m == bits.subrange(69, 119)
            ||| m == bits.subrange(4, 54) && m == bits.subrange(134, 184)
            ||| m == bits.subrange(69, 119) && m == bits.subrange(134, 184)
        },
{
}

/// Law: a 195-digit burst has its copies at digits 15..65, 80..130 and
/// 145..195; it carries a message exactly when two of them agree, and the
/// message is a copy that another copy agrees with.
pub proof fn lemma_temp_b_195(bits: Seq<usize>)
    requires
        bits.len() == 195,
    ensures
        temp_b_message(bits) is Some <==> (bits.subrange(15, 65) == bits.subrange(80, 130)
            || bits.subrange(15, 65) == bits.subrange(145, 195) || bits.subrange(80, 130)
            == bits.subrange(145, 195)),
        temp_b_message(bits) matches Some(m) ==> {
            ||| m == bits.subrange(15, 65) && m == bits.subrange(80, 130)
            ||| m == bits.subrange(15, 65) && m == bits.subrange(145, 195)
            ||| m == bits.subrange(80, 130) && m == bits.subrange(145, 195)
        },
{
}

/// Law: a burst of any other length carries no message.
pub proof fn lemma_temp_b_other_lengths(bits: Seq<usize>)
    requires
        bits.len() != 184,
        bits.len() != 195,
    ensures
        temp_b_message(bits) is None,
{
}

/// Law: whichever copy of a burst is corrupted, the two intact copies give
/// the message.
pub proof fn lemma_temp_b_survives_one_bad_copy(bits: Seq<usize>, m: Seq<usize>)
    requires
        bits.len() == 184 ==> {
            ||| bits.subrange(4, 54) == m && bits.subrange(69, 119) == m
            ||| bits.subrange(4, 54) == m && bits.subrange(134, 184) == m
            ||| bits.subrange(69, 119) == m && bits.subrange(134, 184) == m
        },
        bits.len() == 195 ==> {
            ||| bits.subrange(15, 65) == m && bits.subrange(80, 130) == m
            ||| bits.subrange(15, 65) == m && bits.subrange(145, 195) == m
            ||| bits.subrange(80, 130) == m && bits.subrange(145, 195) == m
        },
        bits.len() == 184 || bits.len() == 195,
    ensures
        temp_b_message(bits) == Some(m),
{
}

proof fn lemma_prefix_sums(w: Seq<usize>)
    ensures
        forall|k: int| 0 < k <= w.len() ==> #[trigger] width_sum(w.take(k)) == width_sum(w.take(k - 1)) + w[k - 1],
        width_sum(w.take(0)) == 0,
{
    assert(w.take(0) =~= Seq::<usize>::empty());
    assert forall|k: int| 0 < k <= w.len() implies #[trigger] width_sum(w.take(k)) == width_sum(w.take(k - 1)) + w[k - 1] by {
        assert(w.take(k).drop_last() =~= w.take(k - 1));
    }
}

/// Law: a sensor A packet of 36 digits reads as the numbers in digits
/// 0..14 (id), 14..16 (channel), 16..28 (temperature) and 28..36 (humidity).
pub proof fn lemma_temp_a_fields(v: Seq<usize>, x: Seq<usize>)
    requires
        x.len() == 36,
        is_eaten(v, x, temp_a_widths()),
    ensures
        v.len() == 4,
        v[0] == b2d_spec(x.subrange(0, 14)),
        v[1] == b2d_spec(x.subrange(14, 16)),
        v[2] == b2d_spec(x.subrange(16, 28)),
        v[3] == b2d_spec(x.subrange(28, 36)),
{
    let w = temp_a_widths();
    lemma_prefix_sums(w);
    assert(width_sum(w.take(1)) == 14);
    assert(width_sum(w.take(2)) == 16);
    assert(width_sum(w.take(3)) == 28);
    assert(v[0] as nat == eat_spec(x, w)[0]);
    assert(v[1] as nat == eat_spec(x, w)[1]);
    assert(v[2] as nat == eat_spec(x, w)[2]);
    assert(v[3] as nat == eat_spec(x, w)[3]);
}

/// Law: a sensor B message reads as the numbers in digits 0..6, 6..11,
/// 11..19, 19..21, 21..30, 30..31, 31..35, 35..37, 37..46 and 46..50.
pub proof fn lemma_temp_b_fields(v: Seq<usize>, m: Seq<usize>)
    requires
        m.len() == 50,
        is_eaten(v, m, temp_b_widths()),
    ensures
        v.len() == 10,
        v[0] == b2d_spec(m.subrange(0, 6)),
        v[1] == b2d_spec(m.subrange(6, 11)),
        v[2] == b2d_spec(m.subrange(11, 19)),
        v[3] == b2d_spec(m.subrange(19, 21)),
        v[4] == b2d_spec(m.subrange(21, 30)),
        v[5] == b2d_spec(m.subrange(30, 31)),
        v[6] == b2d_spec(m.subrange(31, 35)),
        v[7] == b2d_spec(m.subrange(35, 37)),
        v[8] == b2d_spec(m.subrange(37, 46)),
        v[9] == b2d_spec(m.subrange(46, 50)),
{
    let w = temp_b_widths();
    lemma_prefix_sums(w);
    assert(width_sum(w.take(1)) == 6);
    assert(width_sum(w.take(2)) == 11);
    assert(width_sum(w.take(3)) == 19);
    assert(width_sum(w.take(4)) == 21);
    assert(width_sum(w.take(5)) == 30);
    assert(width_sum(w.take(6)) == 31);
    assert(width_sum(w.take(7)) == 35);
    assert(width_sum(w.take(8)) == 37);
    assert(width_sum(w.take(9)) == 46);
    assert(v[0] as nat == eat_spec(m, w)[0]);
    assert(v[1] as nat == eat_spec(m, w)[1]);
    assert(v[2] as nat == eat_spec(m, w)[2]);
    assert(v[3] as nat == eat_spec(m, w)[3]);
    assert(v[4] as nat == eat_spec(m, w)[4]);
    assert(v[5] as nat == eat_spec(m, w)[5]);
    assert(v[6] as nat == eat_spec(m, w)[6]);
    assert(v[7] as nat == eat_spec(m, w)[7]);
    assert(v[8] as nat == eat_spec(m, w)[8]);
    assert(v[9] as nat == eat_spec(m, w)[9]);
}

fn same_digits(x: &[usize], y: &[usize]) -> (r: bool)
    ensures
        r == (x@ == y@),
{
    if x.len() != y.len() {
        return false;
    }
    for i in 0..x.len()
        invariant
            x@.len() == y@.len(),
            forall|j: int| 0 <= j < i ==> x@[j] == y@[j],
    {
        if x[i] != y[i] {
            return false;
        }
    }
    assert(x@ =~= y@);
    true
}

fn copy_digits(x: &[usize]) -> (r: Vec<usize>)
    ensures
        r@ == x@,
{
    let mut r: Vec<usize> = Vec::new();
    for i in 0..x.len()
        invariant
            r@ == x@.take(i as int),
    {
        r.push(x[i]);
        assert(r@ =~= x@.take(i + 1));
    }
    assert(x@.take(x.len() as int) =~= x@);
    r
}

/// Finds the message of a sensor B burst: picks the three copies by the
/// burst's length and takes the one that another copy agrees with.
pub fn temp_b_vote(bits: &[usize]) -> (r: Option<Vec<usize>>)
    ensures
        match temp_b_message(bits@) {
            Some(m) => r matches Some(v) && v@ == m,
            None => r is None,
        },
{
    let (a, b, c) = if bits.len() == 184 {
        (&bits[4..54], &bits[69..119], &bits[134..184])
    } else if bits.len() == 195 {
        (&bits[15..65], &bits[80..130], &bits[145..195])
    } else {
        return None;
    };
    if same_digits(a, b) || same_digits(a, c) {
        Some(copy_digits(a))
    } else if same_digits(b, c) {
        Some(copy_digits(b))
    } else {
        None
    }
}

/// Decodes a sensor B burst: the agreed message, cut into its fields.
pub fn temp_packet_b(bits: &[usize]) -> (r: Option<Vec<usize>>)
    requires
        temp_b_message(bits@) matches Some(m) ==> eat_fits(m, temp_b_widths()),
    ensures
        match temp_b_message(bits@) {
            Some(m) => r matches Some(v) && is_eaten(v@, m, temp_b_widths()),
            None => r is None,
        },
{
    match temp_b_vote(bits) {
        Some(m) => {
            let w = temp_b_fields();
            Some(eat(m.as_slice(), w.as_slice()))
        },
        None => None,
    }
}

} // verus!
