//! The data behind a bar-plot display: a window of the most recent samples,
//! replaced whole when a full frame arrives.
use vstd::prelude::*;

verus! {

/// Number of bars shown before any data has arrived.
pub const INITIAL_BARS: usize = 102;

/// What the display reads.
pub enum SinkEvent<T> {
    /// A whole frame of samples, which replaces the window.
    Frame(Vec<T>),
    /// One new sample, shifted in at the front; the oldest one drops out.
    Sample(T),
    /// Anything else, which leaves the window as it is.
    Other,
}

/// The window after one event.
pub open spec fn shift_in<T>(x: Seq<T>, ev: SinkEvent<T>) -> Seq<T> {
    match ev {
        SinkEvent::Frame(p) => p@,
        SinkEvent::Sample(d) => seq![d] + (if x.len() > 0 { x.drop_last() } else { x }),
        SinkEvent::Other => x,
    }
}

/// The window after a sequence of events.
pub open spec fn window_after<T>(x: Seq<T>, evs: Seq<SinkEvent<T>>) -> Seq<T>
    decreases evs.len(),
{
    if evs.len() == 0 {
        x
    } else {
        shift_in(window_after(x, evs.drop_last()), evs.last())
    }
}

/// Law: shifting a sample in keeps the number of bars (a window with no
/// bars gets one).
pub proof fn lemma_shift_keeps_width<T>(x: Seq<T>, d: T)
    ensures
        shift_in(x, SinkEvent::Sample(d)).len() == if x.len() > 0 { x.len() } else { 1 },
        shift_in(x, SinkEvent::Sample(d))[0] == d,
{
}

/// Law: a whole frame replaces the window, whatever its width was: the
/// window afterwards is exactly the frame, and a later event that is neither
/// a frame nor a sample leaves it so.
pub proof fn lemma_frame_replaces_window<T>(x: Seq<T>, p: Vec<T>)
    ensures
        shift_in(x, SinkEvent::Frame(p)) == p@,
        shift_in(x, SinkEvent::Frame(p)).len() == p@.len(),
        window_after(x, seq![SinkEvent::Frame(p)]) == p@,
        window_after(x, seq![SinkEvent::Frame(p), SinkEvent::Other]) == p@,
{
    let one = seq![SinkEvent::Frame(p)];
    assert(one.drop_last() =~= Seq::<SinkEvent<T>>::empty());
    let two = seq![SinkEvent::Frame(p), SinkEvent::Other];
    assert(two.drop_last() =~= one);
}

/// Samples as the events that bring them.
pub open spec fn samples<T>(ys: Seq<T>) -> Seq<SinkEvent<T>> {
    ys.map_values(|y: T| SinkEvent::Sample(y))
}

/// Law: after samples `ys` arrive one at a time in a window that is not
/// empty, the window holds the samples newest first, then what it held
/// before, cut to its old width: the oldest values drop out.
pub proof fn lemma_window_after_samples<T>(x: Seq<T>, ys: Seq<T>)
    requires
        x.len() > 0,
    ensures
        window_after(x, samples(ys)) == (ys.reverse() + x).take(x.len() as int),
        window_after(x, samples(ys)).len() == x.len(),
    decreases ys.len(),
{
    let evs = samples(ys);
    if ys.len() == 0 {
        assert(evs.len() == 0);
        assert((ys.reverse() + x).take(x.len() as int) =~= x);
    } else {
        let rest = ys.drop_last();
        let y = ys.last();
        lemma_window_after_samples(x, rest);
        assert(evs.drop_last() =~= samples(rest));
        assert(evs.last() == SinkEvent::Sample(y));
        let w = window_after(x, samples(rest));
        assert(w.len() == x.len());
        let n = x.len() as int;
        let before = rest.reverse() + x;
        let after = ys.reverse() + x;
        assert(after =~= seq![y] + before);
        assert(window_after(x, evs) == seq![y] + w.drop_last());
        assert(seq![y] + before.take(n).drop_last() =~= after.take(n));
    }
}

/// The window of samples the display shows.
pub struct VidSink<T> {
    pub x: Vec<T>,
}

impl<T: Copy> VidSink<T> {
    /// A window of `INITIAL_BARS` samples all equal to `zero`.
    pub fn new(zero: T) -> (s: Self)
        ensures
            s.x@ == Seq::new(INITIAL_BARS as nat, |_i: int| zero),
    {
        Self::with_width(zero, INITIAL_BARS)
    }

    /// A window of `n` samples all equal to `zero`.
    pub fn with_width(zero: T, n: usize) -> (s: Self)
        ensures
            s.x@ == Seq::new(n as nat, |_i: int| zero),
    {
        let mut x: Vec<T> = Vec::new();
        for i in 0..n
            invariant
                x@ == Seq::new(i as nat, |_i: int| zero),
        {
            x.push(zero);
            assert(x@ =~= Seq::new((i + 1) as nat, |_i: int| zero));
        }
        VidSink { x }
    }

    /// Reads one event and answers the window to draw.
    pub fn step(&mut self, ev: SinkEvent<T>) -> (frame: Vec<T>)
        ensures
            final(self).x@ == shift_in(old(self).x@, ev),
            frame@ == final(self).x@,
            match ev {
                SinkEvent::Frame(p) => frame@ == p@,
                SinkEvent::Sample(d) => frame@ == seq![d] + (if old(self).x@.len() > 0 {
                    old(self).x@.take(old(self).x@.len() - 1)
                } else {
                    old(self).x@
                }),
                SinkEvent::Other => frame@ == old(self).x@,
            },
    {
        match ev {
            SinkEvent::Frame(p) => {
                self.x = p;
            },
            SinkEvent::Sample(d) => {
                self.x.pop();
                self.x.insert(0, d);
            },
            SinkEvent::Other => {},
        }
        proof {
            assert(self.x@ =~= shift_in(old(self).x@, ev));
        }
        copy_window(&self.x)
    }
}

fn copy_window<T: Copy>(x: &Vec<T>) -> (r: Vec<T>)
    ensures
        r@ == x@,
{
    let mut r: Vec<T> = Vec::new();
    for i in 0..x.len()
        invariant
            r@ == x@.take(i as int),
    {
        r.push(x[i]);
        assert(r@ =~= x@.take(i + 1));
    }
    assert(x@.take(x.len() as int) =~= x@);
    r
}

/// The windows drawn for a sequence of events: one window per event, each
/// after that event, starting from `INITIAL_BARS` copies of `zero`.
#[allow(non_snake_case)]
pub fn vidSink<T: Copy>(events: Vec<SinkEvent<T>>, zero: T) -> (frames: Vec<Vec<T>>)
    ensures
        frames@.len() == events@.len(),
        forall|i: int| 0 <= i < events@.len() ==> (#[trigger] frames@[i])@ == window_after(
            Seq::new(INITIAL_BARS as nat, |_i: int| zero),
            events@.take(i + 1),
        ),
{
    let ghost init = Seq::new(INITIAL_BARS as nat, |_i: int| zero);
    let ghost orig = events@;
    let mut sink = VidSink::new(zero);
    let mut rest = events;
    let mut frames: Vec<Vec<T>> = Vec::new();
    proof {
        assert(orig.take(0) =~= Seq::<SinkEvent<T>>::empty());
    }
    while rest.len() > 0
        invariant
            frames@.len() + rest@.len() == orig.len(),
            rest@ == orig.skip(frames@.len() as int),
            sink.x@ == window_after(init, orig.take(frames@.len() as int)),
            forall|i: int| 0 <= i < frames@.len() ==> (#[trigger] frames@[i])@ == window_after(
                init,
                orig.take(i + 1),
            ),
        decreases rest.len(),
    {
        let ghost k = frames@.len() as int;
        let ev = rest.remove(0);
        proof {
            assert(ev == orig[k]);
            assert(rest@ =~= orig.skip(k + 1));
            assert(orig.take(k + 1).drop_last() =~= orig.take(k));
        }
        let frame = sink.step(ev);
        frames.push(frame);
    }
    frames
}

} // verus!
