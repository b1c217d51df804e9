//! Wiring of a process network.
//!
//! A flow graph is a list of parts: sources (`Head`), filters (`Body`),
//! sinks (`Tail`), nested legs, forks and funnels. Wiring walks the list
//! with a list of open stream ends (receivers) and decides, for every part,
//! which channels it reads and writes. Channels are named by numbers; a new
//! channel takes the next free number. The result is the list of processes
//! to start, each with its channel ends, in the order in which they are
//! started, and the stream end that the graph hands back, if any.
use vstd::prelude::*;

verus! {

/// A part of a flow graph. `H`, `B` and `T` are the code of sources,
/// filters and sinks.
pub enum Parts<H, B, T> {
    /// A source: writes a new stream.
    Head(H),
    /// A filter: reads the first open stream and puts its output stream first.
    Body(B),
    /// A sink: reads the last open stream.
    Tail(T),
    /// A nested graph fed by the first open stream; the stream it hands back
    /// goes last.
    Leg(Vec<Parts<H, B, T>>),
    /// Copies the first open stream to two new streams, put first.
    Fork,
    /// Merges the last two open streams into a new stream, put last.
    Funnel,
}

/// A process to start, with the numbers of the channels it reads and writes.
#[allow(inconsistent_fields)]
pub enum Spawn<H, B, T> {
    Head { g: H, out: usize },
    Body { g: B, input: usize, out: usize },
    Tail { g: T, input: usize },
    Fork { input: usize, out1: usize, out2: usize },
    Funnel { in1: usize, in2: usize, out: usize },
}

/// Why a flow graph cannot be wired.
#[derive(PartialEq, Eq, Structural, Debug, Clone, Copy)]
pub enum SpinUpError {
    /// A graph or a leg has no parts.
    EmptyGraph,
    /// A part needs an open stream and there is none left.
    MissingPort,
}

/// A wired flow graph.
pub struct Wiring<H, B, T> {
    /// The processes to start, in order.
    pub spawns: Vec<Spawn<H, B, T>>,
    /// The stream that the graph hands back.
    pub output: Option<usize>,
    /// The first channel number not used.
    pub next: usize,
}

/// Wiring state: open stream ends, next free channel number, processes so far.
pub type WireState<H, B, T> = (Seq<usize>, nat, Seq<Spawn<H, B, T>>);

/// The number of channels that wiring one part creates.
pub open spec fn part_channels<H, B, T>(f: Parts<H, B, T>) -> nat
    decreases f, 1nat,
{
    match f {
        Parts::Head(_) => 1nat,
        Parts::Body(_) => 1nat,
        Parts::Tail(_) => 0nat,
        Parts::Leg(g) => channels(g@),
        Parts::Fork => 2nat,
        Parts::Funnel => 1nat,
    }
}

/// The number of channels that wiring the parts creates.
pub open spec fn channels<H, B, T>(fss: Seq<Parts<H, B, T>>) -> nat
    decreases fss, 0nat,
{
    if fss.len() == 0 {
        0
    } else {
        channels(fss.drop_first()) + part_channels(fss[0])
    }
}

/// Wires one part in state `st`.
pub open spec fn wire_step<H, B, T>(f: Parts<H, B, T>, st: WireState<H, B, T>) -> Result<
    WireState<H, B, T>,
    SpinUpError,
>
    decreases f, 2nat,
{
    let (ports, next, spawns) = st;
    match f {
        Parts::Head(g) => Ok(
            (ports.push(next as usize), next + 1, spawns.push(Spawn::Head { g, out: next as usize })),
        ),
        Parts::Body(g) => if ports.len() == 0 {
            Err(SpinUpError::MissingPort)
        } else {
            Ok(
                (
                    seq![next as usize] + ports.drop_first(),
                    next + 1,
                    spawns.push(Spawn::Body { g, input: ports[0], out: next as usize }),
                ),
            )
        },
        Parts::Tail(g) => if ports.len() == 0 {
            Err(SpinUpError::MissingPort)
        } else {
            Ok((ports.drop_last(), next, spawns.push(Spawn::Tail { g, input: ports.last() })))
        },
        Parts::Fork => if ports.len() == 0 {
            Err(SpinUpError::MissingPort)
        } else {
            Ok(
                (
                    seq![(next + 1) as usize, next as usize] + ports.drop_first(),
                    next + 2,
                    spawns.push(
                        Spawn::Fork { input: ports[0], out1: next as usize, out2: (next + 1) as usize },
                    ),
                ),
            )
        },
        Parts::Funnel => if ports.len() < 2 {
            Err(SpinUpError::MissingPort)
        } else {
            Ok(
                (
                    ports.drop_last().drop_last().push(next as usize),
                    next + 1,
                    spawns.push(
                        Spawn::Funnel {
                            in1: ports.last(),
                            in2: ports[ports.len() - 2],
                            out: next as usize,
                        },
                    ),
                ),
            )
        },
        Parts::Leg(g) => if ports.len() == 0 {
            Err(SpinUpError::MissingPort)
        } else {
            match wire_graph(g@, (seq![ports[0]], next, spawns)) {
                Err(e) => Err(e),
                Ok((out, n2, s2)) => Ok(
                    (
                        match out {
                            Some(x) => ports.drop_first().push(x),
                            None => ports.drop_first(),
                        },
                        n2,
                        s2,
                    ),
                ),
            }
        },
    }
}

/// Wires the parts one after the other, starting from state `st`.
pub open spec fn wire_seq<H, B, T>(fss: Seq<Parts<H, B, T>>, st: WireState<H, B, T>) -> Result<
    WireState<H, B, T>,
    SpinUpError,
>
    decreases fss, 0nat,
{
    if fss.len() == 0 {
        Ok(st)
    } else {
        match wire_step(fss[0], st) {
            Err(e) => Err(e),
            Ok(st2) => wire_seq(fss.drop_first(), st2),
        }
    }
}

/// Wires a whole graph: its parts, then the stream it hands back, which is
/// the first open stream when its last part is a filter, and none otherwise.
pub open spec fn wire_graph<H, B, T>(fss: Seq<Parts<H, B, T>>, st: WireState<H, B, T>) -> Result<
    (Option<usize>, nat, Seq<Spawn<H, B, T>>),
    SpinUpError,
>
    decreases fss, 1nat,
{
    if fss.len() == 0 {
        Err(SpinUpError::EmptyGraph)
    } else {
        match wire_seq(fss, st) {
            Err(e) => Err(e),
            Ok((ports, n, s)) => Ok(
                (
                    if fss.last() is Body && ports.len() > 0 {
                        Some(ports[0])
                    } else {
                        None
                    },
                    n,
                    s,
                ),
            ),
        }
    }
}

/// Law: wiring one part advances the channel counter by exactly the number
/// of channels the part creates.
pub proof fn lemma_step_next<H, B, T>(f: Parts<H, B, T>, st: WireState<H, B, T>)
    ensures
        wire_step(f, st) matches Ok((_, n, _)) ==> n == st.1 + part_channels(f),
    decreases f, 2nat,
{
    match f {
        Parts::Leg(g) => {
            if st.0.len() > 0 {
                lemma_graph_next(g@, (seq![st.0[0]], st.1, st.2));
            }
        },
        _ => {},
    }
}

/// Law: wiring advances the channel counter by exactly the number of
/// channels the parts create.
pub proof fn lemma_wire_next<H, B, T>(fss: Seq<Parts<H, B, T>>, st: WireState<H, B, T>)
    ensures
        wire_seq(fss, st) matches Ok((_, n, _)) ==> n == st.1 + channels(fss),
    decreases fss, 0nat,
{
    if fss.len() > 0 {
        lemma_step_next(fss[0], st);
        match wire_step(fss[0], st) {
            Err(_) => {},
            Ok(st2) => {
                lemma_wire_next(fss.drop_first(), st2);
            },
        }
    }
}

/// Law: wiring a graph advances the channel counter by exactly the number of
/// channels its parts create.
pub proof fn lemma_graph_next<H, B, T>(fss: Seq<Parts<H, B, T>>, st: WireState<H, B, T>)
    ensures
        wire_graph(fss, st) matches Ok((_, n, _)) ==> n == st.1 + channels(fss),
    decreases fss, 1nat,
{
    if fss.len() > 0 {
        lemma_wire_next(fss, st);
    }
}

/// The channels a process writes.
pub open spec fn spawn_outs<H, B, T>(x: Spawn<H, B, T>) -> Seq<usize> {
    match x {
        Spawn::Head { out, .. } => seq![out],
        Spawn::Body { out, .. } => seq![out],
        Spawn::Tail { .. } => Seq::empty(),
        Spawn::Fork { out1, out2, .. } => seq![out1, out2],
        Spawn::Funnel { out, .. } => seq![out],
    }
}

/// The channels written by a list of processes, in order.
pub open spec fn outs<H, B, T>(s: Seq<Spawn<H, B, T>>) -> Seq<usize>
    decreases s.len(),
{
    if s.len() == 0 {
        Seq::empty()
    } else {
        outs(s.drop_last()) + spawn_outs(s.last())
    }
}

/// The channel numbers `from`, `from + 1`, ..., below `from + n`.
pub open spec fn id_range(from: nat, n: nat) -> Seq<usize> {
    Seq::new(n, |i: int| (from + i) as usize)
}

proof fn lemma_outs_concat<H, B, T>(a: Seq<Spawn<H, B, T>>, b: Seq<Spawn<H, B, T>>)
    ensures
        outs(a + b) == outs(a) + outs(b),
    decreases b.len(),
{
    if b.len() == 0 {
        assert(a + b =~= a);
        assert(outs(a) + outs(b) =~= outs(a));
    } else {
        lemma_outs_concat(a, b.drop_last());
        assert((a + b).drop_last() =~= a + b.drop_last());
        assert(outs(a) + outs(b.drop_last()) + spawn_outs(b.last()) =~= outs(a) + outs(b));
    }
}

/// Wiring from `st` gave `st2`: processes were only appended, and the new
/// ones write exactly the channels numbered from `st.1` on, in order.
pub open spec fn fresh_extension<H, B, T>(st: WireState<H, B, T>, st2: WireState<H, B, T>) -> bool {
    &&& st2.1 >= st.1
    &&& st2.2.len() >= st.2.len()
    &&& st2.2.take(st.2.len() as int) == st.2
    &&& outs(st2.2.skip(st.2.len() as int)) == id_range(st.1, (st2.1 - st.1) as nat)
}

proof fn lemma_fresh_compose<H, B, T>(a: WireState<H, B, T>, b: WireState<H, B, T>, c: WireState<H, B, T>)
    requires
        fresh_extension(a, b),
        fresh_extension(b, c),
    ensures
        fresh_extension(a, c),
{
    let x = b.2.skip(a.2.len() as int);
    let y = c.2.skip(b.2.len() as int);
    assert(c.2.take(a.2.len() as int) =~= a.2) by {
        assert(c.2.take(b.2.len() as int).take(a.2.len() as int) =~= c.2.take(a.2.len() as int));
    }
    assert(c.2.skip(a.2.len() as int) =~= x + y) by {
        assert(c.2.take(b.2.len() as int) =~= b.2);
    }
    lemma_outs_concat(x, y);
    assert(id_range(a.1, (b.1 - a.1) as nat) + id_range(b.1, (c.1 - b.1) as nat) =~= id_range(
        a.1,
        (c.1 - a.1) as nat,
    ));
}

proof fn lemma_fresh_push<H, B, T>(st: WireState<H, B, T>, x: Spawn<H, B, T>, n2: nat, p2: Seq<usize>)
    requires
        spawn_outs(x) == id_range(st.1, (n2 - st.1) as nat),
        n2 >= st.1,
    ensures
        fresh_extension(st, (p2, n2, st.2.push(x))),
{
    let s2 = st.2.push(x);
    assert(s2.take(st.2.len() as int) =~= st.2);
    assert(s2.skip(st.2.len() as int) =~= seq![x]);
    assert(seq![x].drop_last() =~= Seq::<Spawn<H, B, T>>::empty());
    assert(outs(Seq::<Spawn<H, B, T>>::empty()) =~= Seq::<usize>::empty());
    assert(outs(seq![x]) =~= spawn_outs(x));
}

/// Law: wiring one part only appends processes, and the new ones write
/// exactly the new channels, one writer each, in order.
pub proof fn lemma_step_fresh<H, B, T>(f: Parts<H, B, T>, st: WireState<H, B, T>)
    requires
        st.1 + part_channels(f) <= usize::MAX,
    ensures
        wire_step(f, st) matches Ok(st2) ==> fresh_extension(st, st2),
    decreases f, 2nat,
{
    let (ports, next, spawns) = st;
    lemma_step_next(f, st);
    match wire_step(f, st) {
        Err(_) => {},
        Ok(st2) => {
            match f {
                Parts::Leg(g) => {
                    lemma_graph_fresh(g@, (seq![ports[0]], next, spawns));
                },
                Parts::Head(g) => {
                    assert(spawn_outs(st2.2.last()) =~= id_range(next, 1));
                    lemma_fresh_push(st, st2.2.last(), st2.1, st2.0);
                    assert(st2.2 == spawns.push(st2.2.last()));
                },
                Parts::Body(g) => {
                    assert(spawn_outs(st2.2.last()) =~= id_range(next, 1));
                    lemma_fresh_push(st, st2.2.last(), st2.1, st2.0);
                    assert(st2.2 == spawns.push(st2.2.last()));
                },
                Parts::Tail(g) => {
                    assert(spawn_outs(st2.2.last()) =~= id_range(next, 0));
                    lemma_fresh_push(st, st2.2.last(), st2.1, st2.0);
                    assert(st2.2 == spawns.push(st2.2.last()));
                },
                Parts::Fork => {
                    assert(spawn_outs(st2.2.last()) =~= id_range(next, 2));
                    lemma_fresh_push(st, st2.2.last(), st2.1, st2.0);
                    assert(st2.2 == spawns.push(st2.2.last()));
                },
                Parts::Funnel => {
                    assert(spawn_outs(st2.2.last()) =~= id_range(next, 1));
                    lemma_fresh_push(st, st2.2.last(), st2.1, st2.0);
                    assert(st2.2 == spawns.push(st2.2.last()));
                },
            }
        },
    }
}

/// Law: wiring only appends processes, and the channels they write are the
/// new channel numbers, each written by exactly one process, in the order in
/// which the channels were made.
pub proof fn lemma_wire_fresh<H, B, T>(fss: Seq<Parts<H, B, T>>, st: WireState<H, B, T>)
    requires
        st.1 + channels(fss) <= usize::MAX,
    ensures
        wire_seq(fss, st) matches Ok(st2) ==> fresh_extension(st, st2),
    decreases fss, 0nat,
{
    if fss.len() == 0 {
        assert(st.2.take(st.2.len() as int) =~= st.2);
        assert(st.2.skip(st.2.len() as int) =~= Seq::<Spawn<H, B, T>>::empty());
        assert(outs(Seq::<Spawn<H, B, T>>::empty()) =~= id_range(st.1, 0));
    } else {
        lemma_step_fresh(fss[0], st);
        lemma_step_next(fss[0], st);
        match wire_step(fss[0], st) {
            Err(_) => {},
            Ok(st2) => {
                lemma_wire_fresh(fss.drop_first(), st2);
                match wire_seq(fss.drop_first(), st2) {
                    Err(_) => {},
                    Ok(st3) => {
                        lemma_fresh_compose(st, st2, st3);
                    },
                }
            },
        }
    }
}

/// Law: wiring a graph only appends processes, and they write exactly the
/// new channels, one writer each, in the order the channels were made.
pub proof fn lemma_graph_fresh<H, B, T>(fss: Seq<Parts<H, B, T>>, st: WireState<H, B, T>)
    requires
        st.1 + channels(fss) <= usize::MAX,
    ensures
        wire_graph(fss, st) matches Ok((_, n, s)) ==> fresh_extension(st, (Seq::empty(), n, s)),
    decreases fss, 1nat,
{
    if fss.len() > 0 {
        lemma_wire_fresh(fss, st);
    }
}

/// The channels a process reads.
pub open spec fn spawn_ins<H, B, T>(x: Spawn<H, B, T>) -> Seq<usize> {
    match x {
        Spawn::Head { .. } => Seq::empty(),
        Spawn::Body { input, .. } => seq![input],
        Spawn::Tail { input, .. } => seq![input],
        Spawn::Fork { input, .. } => seq![input],
        Spawn::Funnel { in1, in2, .. } => seq![in1, in2],
    }
}

/// The channels read by a list of processes, in order.
pub open spec fn ins<H, B, T>(s: Seq<Spawn<H, B, T>>) -> Seq<usize>
    decreases s.len(),
{
    if s.len() == 0 {
        Seq::empty()
    } else {
        ins(s.drop_last()) + spawn_ins(s.last())
    }
}

/// Every open end is below `n`.
pub open spec fn below(ports: Seq<usize>, n: nat) -> bool {
    forall|i: int| 0 <= i < ports.len() ==> #[trigger] ports[i] < n
}

/// No receiving end is in `e` twice, and each one was open at the start or
/// is a channel made since, numbered from `lo` to below `hi`.
pub open spec fn ends_ok(e: Seq<usize>, ports: Seq<usize>, lo: nat, hi: nat) -> bool {
    &&& e.no_duplicates()
    &&& forall|i: int| 0 <= i < e.len() ==> ports.contains(#[trigger] e[i]) || (lo <= e[i] && e[i] < hi)
}

/// Wiring from `st` gave `st2`, and every receiving end went to at most one
/// place: to one new process that reads it, or to the open ends left.
pub open spec fn linear_extension<H, B, T>(st: WireState<H, B, T>, st2: WireState<H, B, T>) -> bool {
    ends_ok(ins(st2.2.skip(st.2.len() as int)) + st2.0, st.0, st.1, st2.1)
}

proof fn lemma_ins_concat<H, B, T>(a: Seq<Spawn<H, B, T>>, b: Seq<Spawn<H, B, T>>)
    ensures
        ins(a + b) == ins(a) + ins(b),
    decreases b.len(),
{
    if b.len() == 0 {
        assert(a + b =~= a);
        assert(ins(a) + ins(b) =~= ins(a));
    } else {
        lemma_ins_concat(a, b.drop_last());
        assert((a + b).drop_last() =~= a + b.drop_last());
        assert(ins(a) + ins(b.drop_last()) + spawn_ins(b.last()) =~= ins(a) + ins(b));
    }
}

proof fn lemma_ins_single<H, B, T>(x: Spawn<H, B, T>)
    ensures
        ins(seq![x]) == spawn_ins(x),
{
    assert(seq![x].drop_last() =~= Seq::<Spawn<H, B, T>>::empty());
    assert(ins(Seq::<Spawn<H, B, T>>::empty()) =~= Seq::<usize>::empty());
    assert(ins(seq![x]) =~= spawn_ins(x));
}

proof fn lemma_linear_compose<H, B, T>(a: WireState<H, B, T>, b: WireState<H, B, T>, c: WireState<H, B, T>)
    requires
        fresh_extension(a, b),
        fresh_extension(b, c),
        linear_extension(a, b),
        linear_extension(b, c),
        below(a.0, a.1),
    ensures
        linear_extension(a, c),
{
    let u1 = ins(b.2.skip(a.2.len() as int));
    let u2 = ins(c.2.skip(b.2.len() as int));
    assert(c.2.skip(a.2.len() as int) =~= b.2.skip(a.2.len() as int) + c.2.skip(b.2.len() as int)) by {
        assert(c.2.take(b.2.len() as int) =~= b.2);
    }
    lemma_ins_concat(b.2.skip(a.2.len() as int), c.2.skip(b.2.len() as int));
    let e1 = u1 + b.0;
    let e2 = u2 + c.0;
    let e = u1 + e2;
    assert(ins(c.2.skip(a.2.len() as int)) + c.0 =~= e);
    assert forall|i: int| 0 <= i < u1.len() implies a.0.contains(#[trigger] u1[i]) || (a.1 <= u1[i] && u1[i] < b.1) by {
        assert(e1[i] == u1[i]);
    }
    assert forall|i: int| 0 <= i < b.0.len() implies a.0.contains(#[trigger] b.0[i]) || (a.1 <= b.0[i] && b.0[i] < b.1) by {
        assert(e1[u1.len() + i] == b.0[i]);
    }
    assert forall|i: int, j: int| 0 <= i < u1.len() && 0 <= j < b.0.len() implies u1[i] != b.0[j] by {
        assert(e1[i] == u1[i] && e1[u1.len() + j] == b.0[j]);
    }
    assert forall|i: int| 0 <= i < e.len() implies a.0.contains(#[trigger] e[i]) || (a.1 <= e[i] && e[i] < c.1) by {
        if i >= u1.len() {
            let k = i - u1.len();
            assert(e[i] == e2[k]);
            if b.0.contains(e2[k]) {
                let j = choose|j: int| 0 <= j < b.0.len() && b.0[j] == e2[k];
                assert(a.0.contains(b.0[j]) || (a.1 <= b.0[j] && b.0[j] < b.1));
            }
        }
    }
    assert forall|i: int, j: int| 0 <= i < e.len() && 0 <= j < e.len() && i != j implies e[i] != e[j] by {
        if i < u1.len() && j < u1.len() {
            assert(e1[i] == e[i] && e1[j] == e[j]);
        } else if i >= u1.len() && j >= u1.len() {
            assert(e2[i - u1.len()] == e[i] && e2[j - u1.len()] == e[j]);
        } else {
            let (x, y) = if i < u1.len() { (i, j - u1.len()) } else { (j, i - u1.len()) };
            let ex = u1[x];
            let ey = e2[y];
            if b.0.contains(ey) {
                let m = choose|m: int| 0 <= m < b.0.len() && b.0[m] == ey;
                assert(u1[x] != b.0[m]);
            } else {
                assert(b.1 <= ey);
                if a.0.contains(ex) {
                    let m = choose|m: int| 0 <= m < a.0.len() && a.0[m] == ex;
                    assert(a.0[m] < a.1);
                }
            }
        }
    }
}

/// Law: wiring one part hands every receiving end to at most one place.
pub proof fn lemma_step_linear<H, B, T>(f: Parts<H, B, T>, st: WireState<H, B, T>)
    requires
        st.0.no_duplicates(),
        below(st.0, st.1),
        st.1 + part_channels(f) <= usize::MAX,
    ensures
        wire_step(f, st) matches Ok(st2) ==> linear_extension(st, st2),
    decreases f, 2nat,
{
    let (ports, next, spawns) = st;
    lemma_step_fresh(f, st);
    lemma_step_next(f, st);
    match wire_step(f, st) {
        Err(_) => {},
        Ok(st2) => {
            let n = next as usize;
            let e = ins(st2.2.skip(spawns.len() as int)) + st2.0;
            match f {
                Parts::Leg(g) => {
                    let inner = (seq![ports[0]], next, spawns);
                    assert(seq![ports[0]].no_duplicates());
                    lemma_wire_linear(g@, inner);
                    lemma_wire_fresh(g@, inner);
                    let ist = wire_seq(g@, inner)->Ok_0;
                    let ui = ins(ist.2.skip(spawns.len() as int));
                    let ei = ui + ist.0;
                    assert(st2.2 == ist.2 && st2.1 == ist.1);
                    let rest = ports.drop_first();
                    // The ends that the leg hands out come from its own input or are new.
                    assert forall|i: int| 0 <= i < ei.len() implies #[trigger] ei[i] == ports[0] || (next <= ei[i] && ei[i] < st2.1) by {
                        if seq![ports[0]].contains(ei[i]) {
                            let m = choose|m: int| 0 <= m < 1 && seq![ports[0]][m] == ei[i];
                        }
                    }
                    assert forall|i: int, j: int| 0 <= i < ei.len() && 0 <= j < rest.len() implies ei[i] != rest[j] by {
                        assert(rest[j] == ports[j + 1]);
                        assert(ports[j + 1] < next);
                        assert(ports[0] != ports[j + 1]);
                    }
                    let tail: Seq<usize> = if st2.0.len() > rest.len() { seq![st2.0.last()] } else { Seq::empty() };
                    assert(st2.0 =~= rest + tail);
                    assert(tail.len() == 1 ==> tail[0] == ist.0[0]);
                    assert(e =~= ui + rest + tail);
                    assert forall|i: int| 0 <= i < e.len() implies ports.contains(#[trigger] e[i]) || (next <= e[i] && e[i] < st2.1) by {
                        if i < ui.len() {
                            assert(e[i] == ei[i]);
                        } else if i < ui.len() + rest.len() {
                            assert(e[i] == ports[i - ui.len() + 1]);
                        } else {
                            assert(e[i] == ei[ui.len() as int]);
                        }
                    }
                    assert forall|i: int, j: int| 0 <= i < e.len() && 0 <= j < e.len() && i != j implies e[i] != e[j] by {
                        let li = ui.len() as int;
                        let lr = rest.len() as int;
                        if i < li && j < li {
                            assert(e[i] == ei[i] && e[j] == ei[j]);
                        } else if li <= i < li + lr && li <= j < li + lr {
                            assert(e[i] == ports[i - li + 1] && e[j] == ports[j - li + 1]);
                        } else if i < li && li <= j < li + lr {
                            assert(e[i] == ei[i] && e[j] == rest[j - li]);
                        } else if j < li && li <= i < li + lr {
                            assert(e[j] == ei[j] && e[i] == rest[i - li]);
                        } else if i >= li + lr && j < li {
                            assert(e[i] == ei[li] && e[j] == ei[j]);
                        } else if j >= li + lr && i < li {
                            assert(e[j] == ei[li] && e[i] == ei[i]);
                        } else if i >= li + lr {
                            assert(e[i] == ei[li] && e[j] == rest[j - li]);
                        } else {
                            assert(e[j] == ei[li] && e[i] == rest[i - li]);
                        }
                    }
                },
                _ => {
                    let x = st2.2.last();
                    assert(st2.2 == spawns.push(x));
                    assert(st2.2.skip(spawns.len() as int) =~= seq![x]);
                    lemma_ins_single(x);
                    match f {
                        Parts::Head(_) => {
                            assert(e =~= ports.push(n));
                        },
                        Parts::Body(_) => {
                            assert(e =~= seq![ports[0], n] + ports.drop_first());
                            assert forall|i: int, j: int| 0 <= i < e.len() && 0 <= j < e.len() && i != j implies e[i] != e[j] by {
                                if i >= 2 { assert(e[i] == ports[i - 1]); }
                                if j >= 2 { assert(e[j] == ports[j - 1]); }
                            }
                            assert forall|i: int| 0 <= i < e.len() implies ports.contains(#[trigger] e[i]) || (next <= e[i] && e[i] < st2.1) by {
                                if i >= 2 { assert(e[i] == ports[i - 1]); }
                            }
                        },
                        Parts::Tail(_) => {
                            assert(e =~= seq![ports.last()] + ports.drop_last());
                            assert forall|i: int, j: int| 0 <= i < e.len() && 0 <= j < e.len() && i != j implies e[i] != e[j] by {
                                if i >= 1 { assert(e[i] == ports[i - 1]); }
                                if j >= 1 { assert(e[j] == ports[j - 1]); }
                            }
                            assert forall|i: int| 0 <= i < e.len() implies ports.contains(#[trigger] e[i]) || (next <= e[i] && e[i] < st2.1) by {
                                if i >= 1 { assert(e[i] == ports[i - 1]); } else { assert(e[0] == ports[ports.len() - 1]); }
                            }
                        },
                        Parts::Fork => {
                            assert(e =~= seq![ports[0], (next + 1) as usize, n] + ports.drop_first());
                            assert forall|i: int, j: int| 0 <= i < e.len() && 0 <= j < e.len() && i != j implies e[i] != e[j] by {
                                if i >= 3 { assert(e[i] == ports[i - 2]); }
                                if j >= 3 { assert(e[j] == ports[j - 2]); }
                            }
                            assert forall|i: int| 0 <= i < e.len() implies ports.contains(#[trigger] e[i]) || (next <= e[i] && e[i] < st2.1) by {
                                if i >= 3 { assert(e[i] == ports[i - 2]); }
                            }
                        },
                        Parts::Funnel => {
                            let l = ports.len() as int;
                            assert(e =~= seq![ports[l - 1], ports[l - 2]] + ports.drop_last().drop_last().push(n));
                            assert forall|i: int, j: int| 0 <= i < e.len() && 0 <= j < e.len() && i != j implies e[i] != e[j] by {
                                if 2 <= i < l { assert(e[i] == ports[i - 2]); }
                                if 2 <= j < l { assert(e[j] == ports[j - 2]); }
                            }
                            assert forall|i: int| 0 <= i < e.len() implies ports.contains(#[trigger] e[i]) || (next <= e[i] && e[i] < st2.1) by {
                                if 2 <= i < l { assert(e[i] == ports[i - 2]); }
                                if i == 0 { assert(e[i] == ports[l - 1]); }
                                if i == 1 { assert(e[i] == ports[l - 2]); }
                            }
                        },
                        Parts::Leg(_) => {},
                    }
                },
            }
        },
    }
}

proof fn lemma_linear_below<H, B, T>(st: WireState<H, B, T>, st2: WireState<H, B, T>)
    requires
        linear_extension(st, st2),
        below(st.0, st.1),
        st.1 <= st2.1,
    ensures
        below(st2.0, st2.1),
        st2.0.no_duplicates(),
{
    let u = ins(st2.2.skip(st.2.len() as int));
    let e = u + st2.0;
    assert forall|i: int| 0 <= i < st2.0.len() implies #[trigger] st2.0[i] < st2.1 by {
        assert(e[u.len() + i] == st2.0[i]);
        if st.0.contains(st2.0[i]) {
            let m = choose|m: int| 0 <= m < st.0.len() && st.0[m] == st2.0[i];
        }
    }
    assert forall|i: int, j: int| 0 <= i < st2.0.len() && 0 <= j < st2.0.len() && i != j implies st2.0[i] != st2.0[j] by {
        assert(e[u.len() + i] == st2.0[i] && e[u.len() + j] == st2.0[j]);
    }
}

/// Law: wiring hands every receiving end to at most one place: no two
/// processes read the same channel, no process reads a channel that is
/// still left open, and every channel read was open at the start or made
/// by the wiring.
pub proof fn lemma_wire_linear<H, B, T>(fss: Seq<Parts<H, B, T>>, st: WireState<H, B, T>)
    requires
        st.0.no_duplicates(),
        below(st.0, st.1),
        st.1 + channels(fss) <= usize::MAX,
    ensures
        wire_seq(fss, st) matches Ok(st2) ==> linear_extension(st, st2),
    decreases fss, 0nat,
{
    if fss.len() == 0 {
        let e = ins(st.2.skip(st.2.len() as int)) + st.0;
        assert(st.2.skip(st.2.len() as int) =~= Seq::<Spawn<H, B, T>>::empty());
        assert(ins(Seq::<Spawn<H, B, T>>::empty()) =~= Seq::<usize>::empty());
        assert(e =~= st.0);
        assert forall|i: int| 0 <= i < e.len() implies st.0.contains(#[trigger] e[i]) || (st.1 <= e[i] && e[i] < st.1) by {
            assert(st.0[i] == e[i]);
        }
    } else {
        lemma_step_linear(fss[0], st);
        lemma_step_fresh(fss[0], st);
        lemma_step_next(fss[0], st);
        match wire_step(fss[0], st) {
            Err(_) => {},
            Ok(st2) => {
                lemma_linear_below(st, st2);
                lemma_wire_linear(fss.drop_first(), st2);
                lemma_wire_fresh(fss.drop_first(), st2);
                match wire_seq(fss.drop_first(), st2) {
                    Err(_) => {},
                    Ok(st3) => {
                        lemma_linear_compose(st, st2, st3);
                    },
                }
            },
        }
    }
}

/// Law: in a wired graph no two processes read the same channel, the stream
/// handed back is read by none of them, and every channel read was open at
/// the start or was made by the wiring.
pub proof fn lemma_graph_linear<H, B, T>(fss: Seq<Parts<H, B, T>>, st: WireState<H, B, T>)
    requires
        st.0.no_duplicates(),
        below(st.0, st.1),
        st.1 + channels(fss) <= usize::MAX,
    ensures
        wire_graph(fss, st) matches Ok((out, n, s)) ==> ends_ok(
            ins(s.skip(st.2.len() as int)) + match out {
                Some(x) => seq![x],
                None => Seq::empty(),
            },
            st.0,
            st.1,
            n,
        ),
{
    if fss.len() > 0 {
        lemma_wire_linear(fss, st);
        match wire_seq(fss, st) {
            Err(_) => {},
            Ok(st2) => {
                let u = ins(st2.2.skip(st.2.len() as int));
                let e = u + st2.0;
                let o: Seq<usize> = if fss.last() is Body && st2.0.len() > 0 { seq![st2.0[0]] } else { Seq::empty() };
                let f = u + o;
                assert forall|i: int| 0 <= i < f.len() implies #[trigger] f[i] == e[i] by {}
                assert forall|i: int| 0 <= i < f.len() implies st.0.contains(#[trigger] f[i]) || (st.1 <= f[i] && f[i] < st2.1) by {
                    assert(f[i] == e[i]);
                }
                assert forall|i: int, j: int| 0 <= i < f.len() && 0 <= j < f.len() && i != j implies f[i] != f[j] by {
                    assert(f[i] == e[i] && f[j] == e[j]);
                }
            },
        }
    }
}

/// Wires the parts one after the other, updating the open stream ends, the
/// channel counter and the list of processes.
fn wire_seq_exec<H, B, T>(
    fss: Vec<Parts<H, B, T>>,
    ports: &mut Vec<usize>,
    next: &mut usize,
    spawns: &mut Vec<Spawn<H, B, T>>,
) -> (r: Result<(), SpinUpError>)
    requires
        *old(next) + channels(fss@) <= usize::MAX,
    ensures
        match wire_seq(fss@, (old(ports)@, *old(next) as nat, old(spawns)@)) {
            Ok((p, n, s)) => r is Ok && final(ports)@ == p && *final(next) == n && final(spawns)@ == s,
            Err(e) => r == Err::<(), SpinUpError>(e),
        },
    decreases fss@, 0nat,
{
    let ghost orig = fss@;
    let ghost start: WireState<H, B, T> = (ports@, *next as nat, spawns@);
    let mut rest = fss;
    let ghost mut k: int = 0;
    while rest.len() > 0
        invariant
            0 <= k <= orig.len(),
            orig == fss@,
            start == (old(ports)@, *old(next) as nat, old(spawns)@),
            rest@ == orig.skip(k),
            wire_seq(orig, start) == wire_seq(rest@, (ports@, *next as nat, spawns@)),
            *next + channels(rest@) <= usize::MAX,
        decreases rest.len(),
    {
        let ghost before: WireState<H, B, T> = (ports@, *next as nat, spawns@);
        let ghost rs = rest@;
        let f = rest.remove(0);
        proof {
            assert(rest@ =~= rs.drop_first());
            assert(f == orig[k]);
            assert(channels(rs) == channels(rest@) + part_channels(f));
            k = k + 1;
            assert(rest@ =~= orig.skip(k));
        }
        match f {
            Parts::Head(g) => {
                let n = *next;
                ports.push(n);
                spawns.push(Spawn::Head { g, out: n });
                *next = n + 1;
            },
            Parts::Body(g) => {
                if ports.len() == 0 {
                    proof {
                        assert(wire_step(rs[0], before) == Err::<WireState<H, B, T>, SpinUpError>(SpinUpError::MissingPort));
                    }
                    return Err(SpinUpError::MissingPort);
                }
                let n = *next;
                let p = ports.remove(0);
                ports.insert(0, n);
                spawns.push(Spawn::Body { g, input: p, out: n });
                *next = n + 1;
                proof {
                    assert(ports@ =~= seq![n] + before.0.drop_first());
                }
            },
            Parts::Tail(g) => {
                match ports.pop() {
                    None => {
                        proof {
                            assert(wire_step(rs[0], before) == Err::<WireState<H, B, T>, SpinUpError>(SpinUpError::MissingPort));
                        }
                        return Err(SpinUpError::MissingPort);
                    },
                    Some(p) => {
                        spawns.push(Spawn::Tail { g, input: p });
                    },
                }
            },
            Parts::Fork => {
                if ports.len() == 0 {
                    proof {
                        assert(wire_step(rs[0], before) == Err::<WireState<H, B, T>, SpinUpError>(SpinUpError::MissingPort));
                    }
                    return Err(SpinUpError::MissingPort);
                }
                let n = *next;
                let p = ports.remove(0);
                spawns.push(Spawn::Fork { input: p, out1: n, out2: n + 1 });
                ports.insert(0, n);
                ports.insert(0, n + 1);
                *next = n + 2;
                proof {
                    assert(ports@ =~= seq![(n + 1) as usize, n] + before.0.drop_first());
                }
            },
            Parts::Funnel => {
                if ports.len() < 2 {
                    proof {
                        assert(wire_step(rs[0], before) == Err::<WireState<H, B, T>, SpinUpError>(SpinUpError::MissingPort));
                    }
                    return Err(SpinUpError::MissingPort);
                }
                let p1 = ports.pop().unwrap();
                let p2 = ports.pop().unwrap();
                let n = *next;
                ports.push(n);
                spawns.push(Spawn::Funnel { in1: p1, in2: p2, out: n });
                *next = n + 1;
                proof {
                    assert(before.0.last() == p1);
                    assert(before.0[before.0.len() - 2] == p2);
                }
            },
            Parts::Leg(g) => {
                if ports.len() == 0 {
                    proof {
                        assert(wire_step(rs[0], before) == Err::<WireState<H, B, T>, SpinUpError>(SpinUpError::MissingPort));
                    }
                    return Err(SpinUpError::MissingPort);
                }
                let p = ports.remove(0);
                let mut inner: Vec<usize> = Vec::new();
                inner.push(p);
                proof {
                    assert(inner@ =~= seq![before.0[0]]);
                    assert(decreases_to!(orig => orig[k - 1]));
                    lemma_graph_next(g@, (inner@, *next as nat, spawns@));
                }
                match wire_graph_exec(g, inner, next, spawns) {
                    Err(e) => {
                        return Err(e);
                    },
                    Ok(out) => {
                        match out {
                            Some(x) => {
                                ports.push(x);
                            },
                            None => {},
                        }
                    },
                }
            },
        }
    }
    Ok(())
}

/// Wires a graph and answers the stream it hands back.
fn wire_graph_exec<H, B, T>(
    fss: Vec<Parts<H, B, T>>,
    ports: Vec<usize>,
    next: &mut usize,
    spawns: &mut Vec<Spawn<H, B, T>>,
) -> (r: Result<Option<usize>, SpinUpError>)
    requires
        *old(next) + channels(fss@) <= usize::MAX,
    ensures
        match wire_graph(fss@, (ports@, *old(next) as nat, old(spawns)@)) {
            Ok((out, n, s)) => r == Ok::<Option<usize>, SpinUpError>(out) && *final(next) == n
                && final(spawns)@ == s,
            Err(e) => r == Err::<Option<usize>, SpinUpError>(e),
        },
    decreases fss@, 1nat,
{
    if fss.len() == 0 {
        return Err(SpinUpError::EmptyGraph);
    }
    let ends_in_body = match &fss[fss.len() - 1] {
        Parts::Body(_) => true,
        _ => false,
    };
    let mut ports = ports;
    match wire_seq_exec(fss, &mut ports, next, spawns) {
        Err(e) => Err(e),
        Ok(()) => {
            if ends_in_body && ports.len() > 0 {
                Ok(Some(ports[0]))
            } else {
                Ok(None)
            }
        },
    }
}

/// Counts the channels that wiring the parts creates, or answers `None`
/// when the count does not fit in `usize`.
pub fn channels_needed<H, B, T>(fss: &Vec<Parts<H, B, T>>) -> (r: Option<usize>)
    ensures
        match r {
            Some(c) => c == channels(fss@),
            None => channels(fss@) > usize::MAX,
        },
    decreases fss@,
{
    let mut total: usize = 0;
    let mut i = fss.len();
    proof {
        assert(fss@.skip(i as int) =~= Seq::<Parts<H, B, T>>::empty());
    }
    while i > 0
        invariant
            i <= fss@.len(),
            total == channels(fss@.skip(i as int)),
        decreases i,
    {
        i = i - 1;
        proof {
            assert(fss@.skip(i as int).drop_first() =~= fss@.skip(i + 1));
            assert(fss@.skip(i as int)[0] == fss@[i as int]);
        }
        let c: Option<usize> = match &fss[i] {
            Parts::Head(_) => Some(1),
            Parts::Body(_) => Some(1),
            Parts::Tail(_) => Some(0),
            Parts::Leg(g) => {
                proof {
                    assert(decreases_to!(fss@ => fss@[i as int]));
                }
                channels_needed(g)
            },
            Parts::Fork => Some(2),
            Parts::Funnel => Some(1),
        };
        proof {
            let pc = part_channels(fss@[i as int]);
            assert(channels(fss@.skip(i as int)) == channels(fss@.skip(i + 1)) + pc);
            assert(match c {
                Some(v) => v == pc,
                None => pc > usize::MAX,
            });
        }
        match c {
            None => {
                proof {
                    lemma_channels_skip_le(fss@, i as int);
                }
                return None;
            },
            Some(c) => match total.checked_add(c) {
                Some(t) => {
                    total = t;
                },
                None => {
                    proof {
                        lemma_channels_skip_le(fss@, i as int);
                    }
                    return None;
                },
            },
        }
    }
    assert(fss@.skip(0) =~= fss@);
    Some(total)
}

proof fn lemma_channels_skip_le<H, B, T>(fss: Seq<Parts<H, B, T>>, i: int)
    requires
        0 <= i <= fss.len(),
    ensures
        channels(fss.skip(i)) <= channels(fss),
    decreases i,
{
    if i > 0 {
        lemma_channels_skip_le(fss, i - 1);
        assert(fss.skip(i - 1).drop_first() =~= fss.skip(i));
    } else {
        assert(fss.skip(0) =~= fss);
    }
}

/// Wires a flow graph fed by the open streams `ps`, numbering new channels
/// from `next` on.
#[allow(non_snake_case)]
pub fn spinUp<H, B, T>(fss: Vec<Parts<H, B, T>>, ps: Vec<usize>, next: usize) -> (r: Result<
    Wiring<H, B, T>,
    SpinUpError,
>)
    requires
        next + channels(fss@) <= usize::MAX,
    ensures
        match wire_graph(fss@, (ps@, next as nat, Seq::empty())) {
            Ok((out, n, s)) => r matches Ok(w) && w.output == out && w.next == n && w.spawns@ == s,
            Err(e) => r matches Err(e2) && e2 == e,
        },
{
    let mut counter = next;
    let mut spawns: Vec<Spawn<H, B, T>> = Vec::new();
    match wire_graph_exec(fss, ps, &mut counter, &mut spawns) {
        Err(e) => Err(e),
        Ok(output) => Ok(Wiring { spawns, output, next: counter }),
    }
}

} // verus!
