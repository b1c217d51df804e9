//! Stream processors under their camel-case names.
#![allow(non_snake_case)]
use vstd::prelude::*;
use crate::kpn::{self, mapped_vecs, shaped, views};

verus! {

/// Applies `f` to every item of every vector read and sends vectors of the
/// results.
pub fn applicatorVecs<T, F: Fn(&T) -> T>(input: Vec<Vec<T>>, f: &F) -> (out: Vec<Vec<T>>)
    requires
        forall|x: &T| #[trigger] f.requires((x,)),
    ensures
        mapped_vecs(input@, out@, *f),
{
    kpn::applicator_vecs(input, f)
}

/// Applies `f` to every item read and sends the results.
pub fn crossApplicator<T, U, F: Fn(T) -> U>(input: Vec<T>, f: &F) -> (out: Vec<U>)
    requires
        forall|x: T| #[trigger] f.requires((x,)),
    ensures
        out@.len() == input@.len(),
        forall|i: int| 0 <= i < input@.len() ==> f.ensures((input@[i],), #[trigger] out@[i]),
{
    kpn::cross_applicator(input, f)
}

/// Applies `f` to every item of every vector read and sends vectors of the
/// results.
pub fn crossApplicatorVecs<T, U, F: Fn(&T) -> U>(input: Vec<Vec<T>>, f: &F) -> (out: Vec<Vec<U>>)
    requires
        forall|x: &T| #[trigger] f.requires((x,)),
    ensures
        mapped_vecs(input@, out@, *f),
{
    kpn::cross_applicator_vecs(input, f)
}

/// Sends `c` first, then every item read.
pub fn delayVecs<T>(input: Vec<T>, c: T) -> (out: Vec<T>)
    ensures
        out@ == seq![c] + input@,
{
    kpn::delay(input, c)
}

/// Collects values between separators (`None`) and sends each collection
/// of exactly `l` values when its separator arrives.
pub fn shaper<T>(input: Vec<Option<T>>, l: usize) -> (out: Vec<Vec<T>>)
    ensures
        views(out@) == shaped(input@, l as nat, Seq::empty()),
{
    kpn::shaper_optional(input, l)
}

} // verus!
