//! Raw readings of a two-model temperature and humidity sensor.
//!
//! A decoded packet is a list of small numbers (the packet's chips). Its
//! first number names the sensor model; the model fixes where the channel,
//! the temperature and the humidity stand and how they are scaled.
use vstd::prelude::*;

verus! {

/// How a raw reading becomes a physical value.
#[derive(PartialEq, Eq, Structural, Clone, Copy, Debug)]
pub enum Scale {
    /// Tenths of a unit.
    Tenths,
    /// Whole units.
    Units,
    /// Raw value divided by 1.5, minus 6.
    ThirdsOffset,
}

/// One raw reading: what it measures (0: temperature, 1: humidity), the
/// sensor channel, the raw value and its scale.
#[derive(PartialEq, Eq, Structural, Clone, Copy, Debug)]
pub struct RawReading {
    pub quantity: usize,
    pub channel: usize,
    pub raw: usize,
    pub scale: Scale,
}

/// The readings a packet of model 1 or 2 carries, if its model is known.
pub open spec fn readings_spec(l: Seq<usize>) -> Option<(RawReading, RawReading)> {
    if l[0] == 1 {
        Some(
            (
                RawReading {
                    quantity: 0,
                    channel: (l[1] + l[2]) as usize,
                    raw: (l[4] * 16 + l[5]) as usize,
                    scale: Scale::Tenths,
                },
                RawReading {
                    quantity: 1,
                    channel: (l[1] + l[2]) as usize,
                    raw: (l[6] * 16 + l[7]) as usize,
                    scale: Scale::Units,
                },
            ),
        )
    } else if l[0] == 2 {
        Some(
            (
                RawReading {
                    quantity: 0,
                    channel: l[1],
                    raw: (l[2] * 256 + l[3] * 16 + l[4]) as usize,
                    scale: Scale::Tenths,
                },
                RawReading {
                    quantity: 1,
                    channel: l[1],
                    raw: (l[5] * 16 + l[6]) as usize,
                    scale: Scale::ThirdsOffset,
                },
            ),
        )
    } else {
        None
    }
}

/// The packets whose readings can be computed: the model number is there,
/// the fields the model needs are there, and no sum overflows.
pub open spec fn readings_fit(l: Seq<usize>) -> bool {
    &&& l.len() >= 1
    &&& l[0] == 1 ==> l.len() >= 8 && l[1] + l[2] <= usize::MAX && l[4] * 16 + l[5] <= usize::MAX
        && l[6] * 16 + l[7] <= usize::MAX
    &&& l[0] == 2 ==> l.len() >= 7 && l[2] * 256 + l[3] * 16 + l[4] <= usize::MAX && l[5] * 16
        + l[6] <= usize::MAX
}

fn mul_add(a: usize, m: usize, b: usize) -> (r: Option<usize>)
    ensures
        r is Some <==> a * m + b <= usize::MAX,
        r matches Some(v) ==> v == a * m + b,
{
    match a.checked_mul(m) {
        None => {
            proof {
                assert(a * m <= a * m + b);
            }
            None
        },
        Some(x) => x.checked_add(b),
    }
}

/// Tells whether `sensor_readings` can read packet `l`.
pub fn sensor_packet_ok(l: &[usize]) -> (r: bool)
    ensures
        r == readings_fit(l@),
{
    if l.len() < 1 {
        return false;
    }
    if l[0] == 1 {
        l.len() >= 8 && l[1].checked_add(l[2]).is_some() && mul_add(l[4], 16, l[5]).is_some()
            && mul_add(l[6], 16, l[7]).is_some()
    } else if l[0] == 2 {
        if l.len() < 7 {
            return false;
        }
        let t = match (mul_add(l[2], 256, 0), mul_add(l[3], 16, l[4])) {
            (Some(a), Some(b)) => a.checked_add(b).is_some(),
            _ => false,
        };
        t && mul_add(l[5], 16, l[6]).is_some()
    } else {
        true
    }
}

/// Reads the temperature and the humidity out of a sensor packet.
pub fn sensor_readings(l: &[usize]) -> (r: Option<(RawReading, RawReading)>)
    requires
        readings_fit(l@),
    ensures
        r == readings_spec(l@),
{
    if l[0] == 1 {
        let channel = l[1] + l[2];
        let t = RawReading { quantity: 0, channel, raw: l[4] * 16 + l[5], scale: Scale::Tenths };
        let h = RawReading { quantity: 1, channel, raw: l[6] * 16 + l[7], scale: Scale::Units };
        Some((t, h))
    } else if l[0] == 2 {
        let channel = l[1];
        let t = RawReading {
            quantity: 0,
            channel,
            raw: l[2] * 256 + l[3] * 16 + l[4],
            scale: Scale::Tenths,
        };
        let h = RawReading { quantity: 1, channel, raw: l[5] * 16 + l[6], scale: Scale::ThirdsOffset };
        Some((t, h))
    } else {
        None
    }
}

} // verus!
