//! Stream processors of a Kahn process network.
//!
//! Each processor reads one stream and writes another. Here a processor is
//! given as a function from the part of its input stream read so far to the
//! part of its output stream written so far; processors that keep state also
//! offer that state and a step that reads one more item, so that a driver can
//! run them on unbounded streams.
use vstd::prelude::*;
use crate::runs::{canonical, rld_spec, repeat};

verus! {

/// The views of a sequence of vectors.
pub open spec fn views<T>(s: Seq<Vec<T>>) -> Seq<Seq<T>> {
    s.map_values(|v: Vec<T>| v@)
}

/// A stream with repeated items dropped: the first item, then every item
/// that differs from the item right before it.
pub open spec fn changes(s: Seq<usize>) -> Seq<usize>
    decreases s.len(),
{
    if s.len() == 0 {
        Seq::empty()
    } else if s.len() == 1 {
        seq![s[0]]
    } else if s.last() != s[s.len() - 2] {
        changes(s.drop_last()).push(s.last())
    } else {
        changes(s.drop_last())
    }
}

/// The state of a processor that drops repeated items: the last item read,
/// if any.
pub struct Differentiator {
    pub last: Option<usize>,
}

impl Differentiator {
    /// Starts before any item has been read.
    pub fn new() -> (d: Self)
        ensures
            d.last is None,
    {
        Differentiator { last: None }
    }

    /// Reads the next item; sends it when it is the first item or differs
    /// from the item before.
    pub fn step(&mut self, y: usize) -> (sent: Option<usize>)
        ensures
            final(self).last == Some(y),
            sent == if old(self).last != Some(y) { Some(y) } else { None::<usize> },
    {
        let fresh = match self.last {
            Some(x) => x != y,
            None => true,
        };
        self.last = Some(y);
        if fresh {
            Some(y)
        } else {
            None
        }
    }
}

/// Drops repeated items: sends the first item and every item that differs
/// from the item before it.
pub fn differentiator(input: &[usize]) -> (out: Vec<usize>)
    ensures
        out@ == changes(input@),
{
    let mut out: Vec<usize> = Vec::new();
    let mut d = Differentiator::new();
    proof {
        assert(input@.take(0) =~= Seq::<usize>::empty());
    }
    for i in 0..input.len()
        invariant
            i == 0 ==> d.last is None,
            i > 0 ==> d.last == Some(input@[i - 1]),
            out@ == changes(input@.take(i as int)),
    {
        proof {
            assert(input@.take(i + 1).drop_last() =~= input@.take(i as int));
            if i == 0 {
                assert(input@.take(1) =~= seq![input@[0]]);
            }
        }
        match d.step(input[i]) {
            Some(y) => {
                out.push(y);
            },
            None => {},
        }
    }
    assert(input@.take(input.len() as int) =~= input@);
    out
}

proof fn lemma_changes_last(s: Seq<usize>)
    ensures
        s.len() > 0 ==> changes(s).len() > 0 && changes(s).last() == s.last(),
        changes(s).len() <= s.len(),
    decreases s.len(),
{
    if s.len() >= 2 {
        lemma_changes_last(s.drop_last());
    }
}

/// Law: no two neighbouring items that the differentiator sends are equal.
pub proof fn lemma_changes_alternate(s: Seq<usize>)
    ensures
        forall|i: int| 0 <= i < changes(s).len() - 1 ==> #[trigger] changes(s)[i] != changes(s)[i + 1],
    decreases s.len(),
{
    if s.len() >= 2 {
        let p = s.drop_last();
        lemma_changes_alternate(p);
        lemma_changes_last(p);
        if s.last() != s[s.len() - 2] {
            let c = changes(s);
            assert forall|i: int| 0 <= i < c.len() - 1 implies #[trigger] c[i] != c[i + 1] by {
                if i < c.len() - 2 {
                    assert(c[i] == changes(p)[i] && c[i + 1] == changes(p)[i + 1]);
                }
            }
        }
    }
}

/// Law: the differentiator never takes back what it has sent: reading more
/// input only extends its output.
pub proof fn lemma_changes_prefix(s: Seq<usize>, t: Seq<usize>)
    ensures
        changes(s).len() <= changes(s + t).len(),
        changes(s) == changes(s + t).take(changes(s).len() as int),
    decreases t.len(),
{
    if t.len() == 0 {
        assert(s + t =~= s);
    } else {
        lemma_changes_prefix(s, t.drop_last());
        assert((s + t).drop_last() =~= s + t.drop_last());
    }
    assert(changes(s) =~= changes(s + t).take(changes(s).len() as int));
}

proof fn lemma_changes_append_run(x: Seq<usize>, v: usize, k: nat)
    requires
        k >= 1,
    ensures
        changes(x + repeat(v, k)) == if x.len() == 0 || x.last() != v {
            changes(x).push(v)
        } else {
            changes(x)
        },
    decreases k,
{
    if k == 1 {
        assert(x + repeat(v, 1) =~= x.push(v));
        assert(x.push(v).drop_last() =~= x);
        if x.len() > 0 {
            assert(x.push(v)[x.push(v).len() - 2] == x.last());
        } else {
            assert(changes(x) =~= Seq::<usize>::empty());
            assert(x.push(v) =~= seq![v]);
            assert(changes(x).push(v) =~= seq![v]);
        }
    } else {
        let km = (k - 1) as nat;
        lemma_changes_append_run(x, v, km);
        let y = x + repeat(v, k);
        assert(y.drop_last() =~= x + repeat(v, km));
        assert(y[y.len() - 2] == v);
    }
}

/// Law: on the stream that canonical runs stand for, the differentiator
/// sends the value of every run, once each, in order.
pub proof fn lemma_changes_of_runs(r: Seq<(usize, nat)>)
    requires
        canonical(r),
    ensures
        changes(rld_spec(r)) == r.map_values(|p: (usize, nat)| p.0),
    decreases r.len(),
{
    if r.len() == 0 {
        assert(rld_spec(r) =~= Seq::<usize>::empty());
        assert(r.map_values(|p: (usize, nat)| p.0) =~= Seq::<usize>::empty());
    } else {
        let p = r.drop_last();
        let last = r.last();
        assert(r[r.len() - 1].1 >= 1);
        assert(canonical(p)) by {
            assert forall|i: int| 0 <= i < p.len() implies (#[trigger] p[i]).1 >= 1 by {
                assert(p[i] == r[i]);
            }
            assert forall|i: int| 0 <= i < p.len() - 1 implies (#[trigger] p[i]).0 != p[i + 1].0 by {
                assert(p[i] == r[i] && p[i + 1] == r[i + 1]);
            }
        }
        lemma_changes_of_runs(p);
        let x = rld_spec(p);
        if p.len() > 0 {
            assert(p[p.len() - 1].1 >= 1);
            assert(x.len() > 0 && x.last() == p.last().0);
            assert(p.last().0 == r[r.len() - 2].0);
        } else {
            assert(x =~= Seq::<usize>::empty());
        }
        lemma_changes_append_run(x, last.0, last.1);
        assert(r.map_values(|q: (usize, nat)| q.0) =~= p.map_values(|q: (usize, nat)| q.0).push(
            last.0,
        ));
    }
}

/// Sends the items of every vector read, in order.
pub fn unpacketizer<T>(input: Vec<Vec<T>>) -> (out: Vec<T>)
    ensures
        out@ == views(input@).flatten(),
{
    let ghost orig = views(input@).flatten();
    let mut rest = input;
    let mut out: Vec<T> = Vec::new();
    while rest.len() > 0
        invariant
            out@ + views(rest@).flatten() == orig,
        decreases rest.len(),
    {
        let ghost rs = views(rest@);
        let mut v = rest.remove(0);
        proof {
            assert(views(rest@) =~= rs.drop_first());
        }
        out.append(&mut v);
        proof {
            assert(out@ + views(rest@).flatten() =~= orig);
        }
    }
    proof {
        assert(views(rest@).flatten() =~= Seq::<T>::empty());
        assert(out@ + views(rest@).flatten() =~= out@);
    }
    out
}

/// Sends the items of every vector read, in order.
pub fn shaper_vecs<T>(input: Vec<Vec<T>>) -> (out: Vec<T>)
    ensures
        out@ == views(input@).flatten(),
{
    unpacketizer(input)
}

/// The values present in a stream of optional values.
pub open spec fn present<T>(s: Seq<Option<T>>) -> Seq<T>
    decreases s.len(),
{
    if s.len() == 0 {
        Seq::empty()
    } else {
        match s[0] {
            Some(v) => seq![v] + present(s.drop_first()),
            None => present(s.drop_first()),
        }
    }
}

/// Sends the value of every optional value that has one.
pub fn looper_optional<T>(input: Vec<Option<T>>) -> (out: Vec<T>)
    ensures
        out@ == present(input@),
{
    let ghost orig = input@;
    let mut rest = input;
    let mut out: Vec<T> = Vec::new();
    while rest.len() > 0
        invariant
            out@ + present(rest@) == present(orig),
        decreases rest.len(),
    {
        let ghost rs = rest@;
        let x = rest.remove(0);
        proof {
            assert(rest@ =~= rs.drop_first());
        }
        match x {
            Some(d) => {
                out.push(d);
                proof {
                    assert(out@ + present(rest@) =~= present(orig));
                }
            },
            None => {},
        }
    }
    assert(out@ + present(rest@) =~= out@);
    out
}

/// Sends `c` first, then every item read.
pub fn delay<T>(input: Vec<T>, c: T) -> (out: Vec<T>)
    ensures
        out@ == seq![c] + input@,
{
    let mut out: Vec<T> = Vec::new();
    out.push(c);
    let mut input = input;
    out.append(&mut input);
    out
}

/// Sends `c` first, then every item read.
pub fn delay_vecs<T>(input: Vec<T>, c: T) -> (out: Vec<T>)
    ensures
        out@ == seq![c] + input@,
{
    delay(input, c)
}

/// Cuts a stream into vectors of `l` items each; items that do not fill a
/// whole vector yet are not sent.
pub fn shaper<T>(input: Vec<T>, l: usize) -> (out: Vec<Vec<T>>)
    requires
        l > 0,
    ensures
        out@.len() == input@.len() / (l as nat),
        forall|i: int| 0 <= i < out@.len() ==> (#[trigger] out@[i])@.len() == l,
        views(out@).flatten().len() == out@.len() * l,
        views(out@).flatten() == input@.take(views(out@).flatten().len() as int),
{
    let ghost orig = input@;
    let mut rest = input;
    let mut out: Vec<Vec<T>> = Vec::new();
    let mut buf: Vec<T> = Vec::new();
    proof {
        assert(views(out@) =~= Seq::<Seq<T>>::empty());
        assert(views(out@).flatten() =~= Seq::<T>::empty());
    }
    while rest.len() > 0
        invariant
            l > 0,
            buf@.len() < l,
            forall|i: int| 0 <= i < out@.len() ==> (#[trigger] out@[i])@.len() == l,
            views(out@).flatten().len() == out@.len() * l,
            views(out@).flatten() + buf@ + rest@ == orig,
        decreases rest.len(),
    {
        let ghost rs = rest@;
        let ghost fl = views(out@).flatten();
        let x = rest.remove(0);
        buf.push(x);
        proof {
            assert(rest@ =~= rs.drop_first());
            assert(fl + buf@ + rest@ =~= orig);
        }
        if buf.len() == l {
            let full = buf;
            buf = Vec::new();
            let ghost old_out = out@;
            out.push(full);
            proof {
                lemma_flatten_push(views(old_out), full@);
                assert(views(out@) =~= views(old_out).push(full@));
                assert(views(out@).flatten() + buf@ + rest@ =~= orig);
                assert(old_out.len() * l + l == (old_out.len() + 1) * l) by (nonlinear_arith);
            }
        }
    }
    proof {
        let fl = views(out@).flatten();
        assert(fl + buf@ + rest@ =~= fl + buf@);
        assert(orig.take(fl.len() as int) =~= fl);
        let q = out@.len() as int;
        let n = orig.len() as int;
        let li = l as int;
        assert(q * li <= n < q * li + li);
        assert(n / li == q) by (nonlinear_arith)
            requires
                q * li <= n < q * li + li,
                li > 0,
                q >= 0,
        ;
    }
    out
}

/// Flattening a sequence with one more element appends that element.
pub proof fn lemma_flatten_push<T>(s: Seq<Seq<T>>, x: Seq<T>)
    ensures
        s.push(x).flatten() == s.flatten() + x,
    decreases s.len(),
{
    if s.len() == 0 {
        assert(s.push(x).drop_first() =~= Seq::<Seq<T>>::empty());
        assert(s.push(x).flatten() =~= x + Seq::<Seq<T>>::empty().flatten());
        assert(s.push(x).flatten() =~= s.flatten() + x);
    } else {
        lemma_flatten_push(s.drop_first(), x);
        assert(s.push(x).drop_first() =~= s.drop_first().push(x));
        assert(s.push(x).flatten() =~= s.flatten() + x);
    }
}

/// What a shaper of optional values sends on reading `s` when it has
/// collected `buf` so far and wants vectors of `l` values.
pub open spec fn shaped<T>(s: Seq<Option<T>>, l: nat, buf: Seq<T>) -> Seq<Seq<T>>
    decreases s.len(),
{
    if s.len() == 0 {
        Seq::empty()
    } else {
        match s[0] {
            Some(y) => shaped(s.drop_first(), l, buf.push(y)),
            None => if buf.len() == l {
                seq![buf] + shaped(s.drop_first(), l, Seq::empty())
            } else {
                shaped(s.drop_first(), l, Seq::empty())
            },
        }
    }
}

/// What a shaper of optional values has collected after reading `s`,
/// starting with `buf` collected.
pub open spec fn collected_after<T>(s: Seq<Option<T>>, buf: Seq<T>) -> Seq<T>
    decreases s.len(),
{
    if s.len() == 0 {
        buf
    } else {
        match s[0] {
            Some(y) => collected_after(s.drop_first(), buf.push(y)),
            None => collected_after(s.drop_first(), Seq::empty()),
        }
    }
}

/// Law: a shaper that reads `s` and then `t` sends what it sends on `s`,
/// then what it sends on `t` starting from what it had collected; in
/// particular reading more input only extends its output.
pub proof fn lemma_shaped_concat<T>(s: Seq<Option<T>>, t: Seq<Option<T>>, l: nat, buf: Seq<T>)
    ensures
        shaped(s + t, l, buf) == shaped(s, l, buf) + shaped(t, l, collected_after(s, buf)),
    decreases s.len(),
{
    if s.len() == 0 {
        assert(s + t =~= t);
        assert(shaped(s, l, buf) + shaped(t, l, buf) =~= shaped(t, l, buf));
    } else {
        assert((s + t).drop_first() =~= s.drop_first() + t);
        assert((s + t)[0] == s[0]);
        match s[0] {
            Some(y) => {
                lemma_shaped_concat(s.drop_first(), t, l, buf.push(y));
            },
            None => {
                lemma_shaped_concat(s.drop_first(), t, l, Seq::empty());
                if buf.len() == l {
                    assert(seq![buf] + shaped(s.drop_first(), l, Seq::empty()) + shaped(
                        t,
                        l,
                        collected_after(s.drop_first(), Seq::empty()),
                    ) =~= seq![buf] + (shaped(s.drop_first(), l, Seq::empty()) + shaped(
                        t,
                        l,
                        collected_after(s.drop_first(), Seq::empty()),
                    )));
                }
            },
        }
    }
}

/// The state of a shaper of optional values: the values collected since the
/// last separator and the length a vector must have to be sent.
pub struct ShaperOptional<T> {
    pub buf: Vec<T>,
    pub l: usize,
}

impl<T> ShaperOptional<T> {
    /// Starts with nothing collected.
    pub fn new(l: usize) -> (st: Self)
        ensures
            st.buf@ == Seq::<T>::empty(),
            st.l == l,
    {
        ShaperOptional { buf: Vec::new(), l }
    }

    /// Reads one optional value: a value is collected; a separator sends
    /// what was collected when it has exactly `l` values, and clears it.
    pub fn step(&mut self, x: Option<T>) -> (sent: Option<Vec<T>>)
        ensures
            final(self).l == old(self).l,
            match x {
                Some(y) => sent is None && final(self).buf@ == old(self).buf@.push(y),
                None => final(self).buf@ == Seq::<T>::empty() && if old(self).buf@.len() == old(self).l {
                    sent matches Some(v) && v@ == old(self).buf@
                } else {
                    sent is None
                },
            },
    {
        match x {
            Some(y) => {
                self.buf.push(y);
                None
            },
            None => {
                let mut collected: Vec<T> = Vec::new();
                std::mem::swap(&mut collected, &mut self.buf);
                if collected.len() == self.l {
                    Some(collected)
                } else {
                    None
                }
            },
        }
    }
}

/// Collects values between separators (`None`) and sends each collection
/// of exactly `l` values when its separator arrives; other collections are
/// dropped.
pub fn shaper_optional<T>(input: Vec<Option<T>>, l: usize) -> (out: Vec<Vec<T>>)
    ensures
        views(out@) == shaped(input@, l as nat, Seq::empty()),
{
    let ghost orig = input@;
    let mut rest = input;
    let mut st = ShaperOptional::new(l);
    let mut out: Vec<Vec<T>> = Vec::new();
    while rest.len() > 0
        invariant
            st.l == l,
            views(out@) + shaped(rest@, l as nat, st.buf@) == shaped(orig, l as nat, Seq::empty()),
        decreases rest.len(),
    {
        let ghost rs = rest@;
        let ghost b = st.buf@;
        let x = rest.remove(0);
        proof {
            assert(rest@ =~= rs.drop_first());
        }
        let ghost old_out = out@;
        match st.step(x) {
            Some(v) => {
                out.push(v);
                proof {
                    assert(views(out@) =~= views(old_out).push(b));
                    assert(views(out@) + shaped(rest@, l as nat, st.buf@) =~= views(old_out)
                        + shaped(rs, l as nat, b));
                }
            },
            None => {},
        }
    }
    assert(views(out@) + shaped(rest@, l as nat, st.buf@) =~= views(out@));
    out
}

/// Copies every item read to each of `n` output streams; each copy is a
/// clone.
pub fn fork<T: Clone>(input: &[T], n: usize) -> (out: Vec<Vec<T>>)
    ensures
        out@.len() == n,
        forall|k: int| 0 <= k < n ==> (#[trigger] out@[k])@.len() == input@.len(),
        forall|k: int, i: int| 0 <= k < n && 0 <= i < input@.len() ==> cloned(input@[i], #[trigger] out@[k]@[i]),
{
    let mut out: Vec<Vec<T>> = Vec::new();
    for k in 0..n
        invariant
            out@.len() == k,
            forall|j: int| 0 <= j < k ==> (#[trigger] out@[j])@.len() == input@.len(),
            forall|j: int, i: int| 0 <= j < k && 0 <= i < input@.len() ==> cloned(input@[i], #[trigger] out@[j]@[i]),
    {
        let copy = vec(input);
        out.push(copy);
    }
    out
}

/// A vector holding clones of the items of a slice.
pub fn vec<T: Clone>(u: &[T]) -> (out: Vec<T>)
    ensures
        out@.len() == u@.len(),
        forall|i: int| 0 <= i < u@.len() ==> cloned(u@[i], #[trigger] out@[i]),
{
    let mut out: Vec<T> = Vec::new();
    for i in 0..u.len()
        invariant
            out@.len() == i,
            forall|j: int| 0 <= j < i ==> cloned(u@[j], #[trigger] out@[j]),
    {
        out.push(u[i].clone());
    }
    out
}

/// Applies `f` to every item read and sends the results.
pub fn cross_applicator<T, U, F: Fn(T) -> U>(input: Vec<T>, f: &F) -> (out: Vec<U>)
    requires
        forall|x: T| #[trigger] f.requires((x,)),
    ensures
        out@.len() == input@.len(),
        forall|i: int| 0 <= i < input@.len() ==> f.ensures((input@[i],), #[trigger] out@[i]),
{
    let ghost orig = input@;
    let mut rest = input;
    let mut out: Vec<U> = Vec::new();
    while rest.len() > 0
        invariant
            forall|x: T| #[trigger] f.requires((x,)),
            out@.len() + rest@.len() == orig.len(),
            rest@ == orig.skip(out@.len() as int),
            forall|i: int| 0 <= i < out@.len() ==> f.ensures((orig[i],), #[trigger] out@[i]),
        decreases rest.len(),
    {
        let ghost rs = rest@;
        let x = rest.remove(0);
        proof {
            assert(rest@ =~= orig.skip(out@.len() + 1 as int));
        }
        let y = f(x);
        out.push(y);
    }
    out
}

/// Applies `f` to every item read and sends the results.
pub fn applicator<T, F: Fn(T) -> T>(input: Vec<T>, f: &F) -> (out: Vec<T>)
    requires
        forall|x: T| #[trigger] f.requires((x,)),
    ensures
        out@.len() == input@.len(),
        forall|i: int| 0 <= i < input@.len() ==> f.ensures((input@[i],), #[trigger] out@[i]),
{
    cross_applicator(input, f)
}

/// Applies `f` to every item of one vector.
fn map_vec<T, U, F: Fn(&T) -> U>(v: &Vec<T>, f: &F) -> (out: Vec<U>)
    requires
        forall|x: &T| #[trigger] f.requires((x,)),
    ensures
        out@.len() == v@.len(),
        forall|i: int| 0 <= i < v@.len() ==> f.ensures((&v@[i],), #[trigger] out@[i]),
{
    let mut out: Vec<U> = Vec::new();
    for i in 0..v.len()
        invariant
            forall|x: &T| #[trigger] f.requires((x,)),
            out@.len() == i,
            forall|j: int| 0 <= j < i ==> f.ensures((&v@[j],), #[trigger] out@[j]),
    {
        let y = f(&v[i]);
        out.push(y);
    }
    out
}

/// `outs` holds, for every vector of `ins`, the results of `f` on its items.
pub open spec fn mapped_vecs<T, U, F: Fn(&T) -> U>(ins: Seq<Vec<T>>, outs: Seq<Vec<U>>, f: F) -> bool {
    &&& outs.len() == ins.len()
    &&& forall|k: int| 0 <= k < ins.len() ==> (#[trigger] outs[k])@.len() == ins[k]@.len()
    &&& forall|k: int, i: int| 0 <= k < ins.len() && 0 <= i < ins[k]@.len()
        ==> f.ensures((&ins[k]@[i],), #[trigger] outs[k]@[i])
}

/// Applies `f` to every item of every vector read and sends vectors of the
/// results.
pub fn cross_applicator_vecs<T, U, F: Fn(&T) -> U>(input: Vec<Vec<T>>, f: &F) -> (out: Vec<Vec<U>>)
    requires
        forall|x: &T| #[trigger] f.requires((x,)),
    ensures
        mapped_vecs(input@, out@, *f),
{
    let mut out: Vec<Vec<U>> = Vec::new();
    for k in 0..input.len()
        invariant
            forall|x: &T| #[trigger] f.requires((x,)),
            out@.len() == k,
            forall|j: int| 0 <= j < k ==> (#[trigger] out@[j])@.len() == input@[j]@.len(),
            forall|j: int, i: int| 0 <= j < k && 0 <= i < input@[j]@.len()
                ==> f.ensures((&input@[j]@[i],), #[trigger] out@[j]@[i]),
    {
        let mapped = map_vec(&input[k], f);
        out.push(mapped);
    }
    out
}

/// Applies `f` to every item of every vector read and sends vectors of the
/// results.
pub fn applicator_vecs<T, F: Fn(&T) -> T>(input: Vec<Vec<T>>, f: &F) -> (out: Vec<Vec<T>>)
    requires
        forall|x: &T| #[trigger] f.requires((x,)),
    ensures
        mapped_vecs(input@, out@, *f),
{
    cross_applicator_vecs(input, f)
}

} // verus!
