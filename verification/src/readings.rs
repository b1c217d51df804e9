//! Kinds of sensor readings.
use vstd::prelude::*;

verus! {

/// What a sensor reading measures.
#[allow(non_camel_case_types)]
#[derive(PartialEq, Eq, Structural, Clone, Copy, Debug)]
pub enum DataTypes {
    temperature,
    relativeHumidity,
}

} // verus!
