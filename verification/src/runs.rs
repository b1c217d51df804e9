//! Run-length coding of symbol streams.
//!
//! A run is a value together with the number of times it repeats.
use vstd::prelude::*;

verus! {

/// `n` copies of `v`.
pub open spec fn repeat<T>(v: T, n: nat) -> Seq<T> {
    Seq::new(n, |_i: int| v)
}

/// The stream that a sequence of runs stands for.
pub open spec fn rld_spec<T>(runs: Seq<(T, nat)>) -> Seq<T>
    decreases runs.len(),
{
    if runs.len() == 0 {
        Seq::empty()
    } else {
        rld_spec(runs.drop_last()) + repeat(runs.last().0, runs.last().1)
    }
}

/// Law: decoding concatenated runs gives the concatenated streams.
pub proof fn lemma_rld_concat<T>(a: Seq<(T, nat)>, b: Seq<(T, nat)>)
    ensures
        rld_spec(a + b) == rld_spec(a) + rld_spec(b),
    decreases b.len(),
{
    if b.len() == 0 {
        assert(a + b =~= a);
        assert(rld_spec(a) + rld_spec(b) =~= rld_spec(a));
    } else {
        lemma_rld_concat(a, b.drop_last());
        assert((a + b).drop_last() =~= a + b.drop_last());
        assert(rld_spec(a) + rld_spec(b.drop_last()) + repeat(b.last().0, b.last().1) =~= rld_spec(a)
            + rld_spec(b));
    }
}

/// Run counts read as natural numbers.
pub open spec fn counts_nat<T>(runs: Seq<(T, usize)>) -> Seq<(T, nat)> {
    runs.map_values(|r: (T, usize)| (r.0, r.1 as nat))
}

/// The maximal runs of a stream, in order.
pub open spec fn runs_of(s: Seq<usize>) -> Seq<(usize, nat)>
    decreases s.len(),
{
    if s.len() == 0 {
        Seq::empty()
    } else {
        let r = runs_of(s.drop_last());
        if r.len() > 0 && r.last().0 == s.last() {
            r.update(r.len() - 1, (s.last(), r.last().1 + 1))
        } else {
            r.push((s.last(), 1))
        }
    }
}

/// The runs that a run-length encoder has sent after reading `s`: every
/// run but the last, which may still grow.
pub open spec fn rle_spec(s: Seq<usize>) -> Seq<(usize, nat)> {
    if s.len() == 0 {
        Seq::empty()
    } else {
        runs_of(s).drop_last()
    }
}

/// No run is empty and neighbouring runs hold different values.
pub open spec fn canonical(r: Seq<(usize, nat)>) -> bool {
    &&& forall|i: int| 0 <= i < r.len() ==> (#[trigger] r[i]).1 >= 1
    &&& forall|i: int| 0 <= i < r.len() - 1 ==> (#[trigger] r[i]).0 != r[i + 1].0
}

proof fn lemma_runs_of_last(s: Seq<usize>)
    requires
        s.len() > 0,
    ensures
        runs_of(s).len() > 0,
        runs_of(s).last().0 == s.last(),
        runs_of(s).len() <= s.len(),
    decreases s.len(),
{
    if s.len() > 1 {
        lemma_runs_of_last(s.drop_last());
    } else {
        assert(runs_of(s.drop_last()).len() == 0);
    }
}

/// Law: the runs of a stream are canonical.
pub proof fn lemma_runs_of_canonical(s: Seq<usize>)
    ensures
        canonical(runs_of(s)),
    decreases s.len(),
{
    if s.len() > 0 {
        let sp = s.drop_last();
        lemma_runs_of_canonical(sp);
        if sp.len() > 0 {
            lemma_runs_of_last(sp);
        }
        let r = runs_of(sp);
        let n = runs_of(s);
        assert forall|i: int| 0 <= i < n.len() - 1 implies (#[trigger] n[i]).0 != n[i + 1].0 by {
            if i < r.len() - 1 {
                assert(n[i].0 == r[i].0 && n[i + 1].0 == r[i + 1].0);
            }
        }
    }
}

proof fn lemma_repeat_push<T>(v: T, n: nat)
    ensures
        repeat(v, n + 1) =~= repeat(v, n).push(v),
{
}

/// Law: decoding the runs of a stream gives the stream back.
pub proof fn lemma_rld_runs_of(s: Seq<usize>)
    ensures
        rld_spec(runs_of(s)) == s,
    decreases s.len(),
{
    if s.len() == 0 {
        assert(rld_spec(runs_of(s)) =~= s);
    } else {
        let sp = s.drop_last();
        lemma_rld_runs_of(sp);
        let r = runs_of(sp);
        if r.len() > 0 && r.last().0 == s.last() {
            let n = r.update(r.len() - 1, (s.last(), r.last().1 + 1));
            assert(n.drop_last() =~= r.drop_last());
            lemma_repeat_push(s.last(), r.last().1);
            assert(rld_spec(n) =~= rld_spec(r).push(s.last()));
        } else {
            let n = r.push((s.last(), 1));
            assert(n.drop_last() =~= r);
            assert(repeat(s.last(), 1) =~= seq![s.last()]);
        }
        assert(sp.push(s.last()) =~= s);
    }
}

proof fn lemma_rld_last(r: Seq<(usize, nat)>)
    requires
        canonical(r),
        r.len() > 0,
    ensures
        rld_spec(r).len() > 0,
        rld_spec(r).last() == r.last().0,
{
    assert(r[r.len() - 1].1 >= 1);
}

proof fn lemma_canonical_prefix(r: Seq<(usize, nat)>)
    requires
        canonical(r),
        r.len() > 0,
    ensures
        canonical(r.drop_last()),
{
    let p = r.drop_last();
    assert forall|i: int| 0 <= i < p.len() implies (#[trigger] p[i]).1 >= 1 by {
        assert(p[i] == r[i]);
    }
    assert forall|i: int| 0 <= i < p.len() - 1 implies (#[trigger] p[i]).0 != p[i + 1].0 by {
        assert(p[i] == r[i] && p[i + 1] == r[i + 1]);
    }
}

proof fn lemma_runs_of_append_run(x: Seq<usize>, v: usize, k: nat)
    requires
        k >= 1,
        x.len() == 0 || x.last() != v,
    ensures
        runs_of(x + repeat(v, k)) == runs_of(x).push((v, k)),
    decreases k,
{
    if x.len() > 0 {
        lemma_runs_of_last(x);
    }
    if k == 1 {
        assert(x + repeat(v, 1) =~= x.push(v));
        assert((x + repeat(v, 1)).drop_last() =~= x);
    } else {
        let km = (k - 1) as nat;
        lemma_runs_of_append_run(x, v, km);
        let y = x + repeat(v, k);
        assert(y.drop_last() =~= x + repeat(v, km));
        assert(y.last() == v);
        assert(runs_of(x).push((v, km)).update(runs_of(x).len() as int, (v, km + 1))
            =~= runs_of(x).push((v, k)));
    }
}

/// Law: a canonical sequence of runs is the run-length encoding of the stream
/// it stands for.
pub proof fn lemma_runs_of_rld(r: Seq<(usize, nat)>)
    requires
        canonical(r),
    ensures
        runs_of(rld_spec(r)) == r,
    decreases r.len(),
{
    if r.len() == 0 {
        assert(runs_of(rld_spec(r)) =~= r);
    } else {
        let p = r.drop_last();
        lemma_canonical_prefix(r);
        lemma_runs_of_rld(p);
        if p.len() > 0 {
            lemma_rld_last(p);
            assert(p.last() == r[r.len() - 2]);
        }
        assert(r[r.len() - 1].1 >= 1);
        lemma_runs_of_append_run(rld_spec(p), r.last().0, r.last().1);
        assert(p.push(r.last()) =~= r);
    }
}

/// Law: what the encoder has sent, followed by the run it still holds, is the
/// whole run-length encoding of what it has read.
pub proof fn lemma_rle_pending(s: Seq<usize>)
    requires
        s.len() > 0,
    ensures
        rle_spec(s).push(runs_of(s).last()) == runs_of(s),
{
    lemma_runs_of_last(s);
    assert(rle_spec(s).push(runs_of(s).last()) =~= runs_of(s));
}

/// Law: an encoder never takes back what it has sent: reading more input
/// only extends its output.
pub proof fn lemma_rle_prefix(s: Seq<usize>, t: Seq<usize>)
    ensures
        rle_spec(s).len() <= rle_spec(s + t).len(),
        rle_spec(s) == rle_spec(s + t).take(rle_spec(s).len() as int),
    decreases t.len(),
{
    if t.len() == 0 {
        assert(s + t =~= s);
        assert(rle_spec(s).take(rle_spec(s).len() as int) =~= rle_spec(s));
    } else {
        let tp = t.drop_last();
        lemma_rle_prefix(s, tp);
        let u = s + tp;
        let w = s + t;
        assert(w.drop_last() =~= u);
        if u.len() > 0 {
            lemma_runs_of_last(u);
            let r = runs_of(u);
            let n = runs_of(w);
            assert(rle_spec(u) == r.drop_last());
            if r.len() > 0 && r.last().0 == w.last() {
                assert(n.drop_last() =~= r.drop_last());
            } else {
                assert(n.drop_last() =~= r);
            }
            assert(rle_spec(u) =~= rle_spec(w).take(rle_spec(u).len() as int));
        }
        assert(rle_spec(s) =~= rle_spec(w).take(rle_spec(s).len() as int));
    }
}

/// The state of a streaming run-length encoder: the value of the run it is
/// counting and how long that run is so far.
pub struct RleState {
    pub cur: usize,
    pub count: usize,
}

impl RleState {
    /// The run the encoder holds and has not sent yet.
    pub open spec fn pending(&self) -> (usize, nat) {
        (self.cur, self.count as nat)
    }

    /// Starts counting with the first symbol of the stream.
    pub fn new(first: usize) -> (st: Self)
        ensures
            st.cur == first,
            st.count == 1,
    {
        RleState { cur: first, count: 1 }
    }

    /// Reads the next symbol; answers the run that it ends, if it ends one.
    pub fn step(&mut self, y: usize) -> (sent: Option<(usize, usize)>)
        requires
            old(self).count < usize::MAX,
        ensures
            y != old(self).cur ==> sent == Some((old(self).cur, old(self).count))
                && final(self).cur == y && final(self).count == 1,
            y == old(self).cur ==> sent is None && final(self).cur == old(self).cur
                && final(self).count == old(self).count + 1,
    {
        if y != self.cur {
            let run = (self.cur, self.count);
            self.cur = y;
            self.count = 1;
            Some(run)
        } else {
            self.count = self.count + 1;
            None
        }
    }
}

/// Run-length encodes a stream: the runs that have ended once the whole
/// input has been read. The last run is still open and is not sent.
pub fn rle(input: &[usize]) -> (out: Vec<(usize, usize)>)
    ensures
        counts_nat(out@) == rle_spec(input@),
{
    if input.len() == 0 {
        let out: Vec<(usize, usize)> = Vec::new();
        assert(counts_nat(out@) =~= rle_spec(input@));
        return out;
    }
    let mut st = RleState::new(input[0]);
    let mut out: Vec<(usize, usize)> = Vec::new();
    proof {
        assert(input@.take(1).drop_last() =~= Seq::<usize>::empty());
        assert(runs_of(input@.take(1).drop_last()).len() == 0);
        assert(input@.take(1).last() == input@[0]);
        assert(counts_nat(out@) =~= Seq::<(usize, nat)>::empty());
        assert(counts_nat(out@).push(st.pending()) =~= runs_of(input@.take(1)));
    }
    for i in 1..input.len()
        invariant
            1 <= st.count <= i,
            counts_nat(out@).push(st.pending()) == runs_of(input@.take(i as int)),
    {
        let y = input[i];
        let ghost old_out = out@;
        let ghost old_st = st.pending();
        proof {
            assert(input@.take(i + 1).drop_last() =~= input@.take(i as int));
            assert(input@.take(i + 1).last() == y);
            assert(runs_of(input@.take(i as int)).last() == old_st);
        }
        match st.step(y) {
            Some(run) => {
                out.push(run);
                proof {
                    assert(counts_nat(out@) =~= counts_nat(old_out).push(old_st));
                    assert(counts_nat(out@).push(st.pending()) =~= runs_of(input@.take(i + 1)));
                }
            },
            None => {
                proof {
                    assert(counts_nat(out@).push(st.pending()) =~= runs_of(input@.take(i + 1)));
                }
            },
        }
    }
    proof {
        assert(input@.take(input.len() as int) =~= input@);
        assert(counts_nat(out@) =~= rle_spec(input@));
    }
    out
}

/// Run-length decodes a stream of runs: each value is sent as many times as
/// its count says, each time as a fresh clone.
pub fn rld<T: Clone>(input: &[(T, usize)]) -> (out: Vec<T>)
    ensures
        out@.len() == rld_spec(counts_nat(input@)).len(),
        forall|j: int| 0 <= j < out@.len() ==> cloned(rld_spec(counts_nat(input@))[j], #[trigger] out@[j]),
{
    let mut out: Vec<T> = Vec::new();
    for i in 0..input.len()
        invariant
            out@.len() == rld_spec(counts_nat(input@.take(i as int))).len(),
            forall|j: int| 0 <= j < out@.len() ==>
                cloned(rld_spec(counts_nat(input@.take(i as int)))[j], #[trigger] out@[j]),
    {
        let ghost before = out@;
        let ghost prev = rld_spec(counts_nat(input@.take(i as int)));
        let x = &input[i].0;
        let ct = input[i].1;
        proof {
            assert(counts_nat(input@.take(i + 1)).drop_last() =~= counts_nat(input@.take(i as int)));
            assert(counts_nat(input@.take(i + 1)).last() == (input@[i as int].0, input@[i as int].1 as nat));
        }
        let ghost next = rld_spec(counts_nat(input@.take(i + 1)));
        assert(next =~= prev + repeat(input@[i as int].0, ct as nat));
        for _k in 0..ct
            invariant
                before.len() == prev.len(),
                next =~= prev + repeat(input@[i as int].0, ct as nat),
                *x == input@[i as int].0,
                out@.len() == prev.len() + _k,
                forall|j: int| 0 <= j < before.len() ==> cloned(prev[j], #[trigger] out@[j]),
                forall|j: int| 0 <= j < before.len() ==> out@[j] == before[j],
                forall|j: int| before.len() <= j < out@.len() ==> cloned(*x, #[trigger] out@[j]),
        {
            out.push(x.clone());
        }
        assert forall|j: int| 0 <= j < out@.len() implies cloned(next[j], #[trigger] out@[j]) by {
            if j >= before.len() {
                assert(next[j] == *x);
            } else {
                assert(next[j] == prev[j]);
            }
        }
    }
    assert(input@.take(input.len() as int) =~= input@);
    out
}

} // verus!
