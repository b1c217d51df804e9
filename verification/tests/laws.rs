use ratpak::network::{channels_needed, spinUp, Parts, Spawn};
use ratpak::oblw::{b2B, bits_to_packets, B2b};
use ratpak::outlet::{code_bits, LONG, SHORT, SILENCE};
use ratpak::runs::{rle, RleState};
use ratpak::sensors::{sensor_packet_ok, sensor_readings, RawReading, Scale};
use ratpak::bits::{decode, decode_ok};
use ratpak::kpn::differentiator;

type P = Parts<u8, u8, u8>;

#[test]
fn rle_output_only_grows() {
    let s = [1, 1, 2, 3, 3];
    let t = [3, 4, 4, 1];
    let whole: Vec<usize> = s.iter().chain(t.iter()).cloned().collect();
    let a = rle(&s);
    let b = rle(&whole);
    assert!(a.len() <= b.len());
    assert_eq!(a[..], b[..a.len()]);
}

#[test]
fn differentiator_output_only_grows_and_alternates() {
    let s = [5, 5, 6, 5];
    let whole = [5, 5, 6, 5, 5, 7, 7, 6];
    let a = differentiator(&s);
    let b = differentiator(&whole);
    assert_eq!(b, vec![5, 6, 5, 7, 6]);
    assert_eq!(a[..], b[..a.len()]);
    for w in b.windows(2) {
        assert_ne!(w[0], w[1]);
    }
}

#[test]
fn rle_runs_are_canonical() {
    let s = [0, 0, 1, 1, 1, 0, 2, 2, 9];
    let mut runs = rle(&s);
    let mut st = RleState::new(s[0]);
    for &y in &s[1..] {
        st.step(y);
    }
    runs.push((st.cur, st.count));
    assert!(runs.iter().all(|r| r.1 >= 1));
    for w in runs.windows(2) {
        assert_ne!(w[0].0, w[1].0);
    }
}

fn ends(spawns: &[Spawn<u8, u8, u8>]) -> (Vec<usize>, Vec<usize>) {
    let mut ins = vec![];
    let mut outs = vec![];
    for s in spawns {
        match s {
            Spawn::Head { out, .. } => outs.push(*out),
            Spawn::Body { input, out, .. } => {
                ins.push(*input);
                outs.push(*out)
            },
            Spawn::Tail { input, .. } => ins.push(*input),
            Spawn::Fork { input, out1, out2 } => {
                ins.push(*input);
                outs.push(*out1);
                outs.push(*out2)
            },
            Spawn::Funnel { in1, in2, out } => {
                ins.push(*in1);
                ins.push(*in2);
                outs.push(*out)
            },
        }
    }
    (ins, outs)
}

fn graph() -> Vec<P> {
    vec![
        Parts::Head(1),
        Parts::Fork,
        Parts::Leg(vec![Parts::Body(2), Parts::Body(3)]),
        Parts::Funnel,
        Parts::Tail(4),
        Parts::Head(5),
        Parts::Body(6),
    ]
}

#[test]
fn wiring_uses_every_channel_once() {
    let n = channels_needed(&graph()).unwrap();
    let w = spinUp(graph(), vec![100], 0).ok().unwrap();
    let (ins, outs) = ends(&w.spawns);
    // each new channel is written by exactly one process, in order
    assert_eq!(outs, (0..n).collect::<Vec<usize>>());
    assert_eq!(w.next, n);
    // no channel is read twice, and the output is read by nobody
    let mut all = ins.clone();
    if let Some(o) = w.output {
        all.push(o);
    }
    let mut sorted = all.clone();
    sorted.sort();
    sorted.dedup();
    assert_eq!(sorted.len(), all.len());
    assert!(all.iter().all(|&x| x == 100 || x < n));
}

#[test]
fn channels_needed_counts_nested_legs() {
    assert_eq!(channels_needed(&graph()), Some(8));
    let empty: Vec<P> = vec![];
    assert_eq!(channels_needed(&empty), Some(0));
}

#[test]
fn packets_rebuild_bytes() {
    let bytes: Vec<u8> = (0..130u32).map(|i| (i * 7) as u8).collect();
    let packets = bits_to_packets(B2b(&bytes));
    let flat: Vec<u8> = packets.concat();
    assert_eq!(flat.len(), 192);
    assert_eq!(flat[..130], bytes[..]);
    assert!(flat[130..].iter().all(|&b| b == 0));
    assert_eq!(b2B(B2b(&bytes)), bytes);
}

#[test]
fn code_length_matches_digits_sent() {
    let code = vec![Some(1), Some(0), Some(3), Some(1), None];
    assert_eq!(code_bits(Some(code)).len(), 5 * (3 * (LONG + SHORT) + SILENCE));
}

#[test]
fn sensor_readings_by_model() {
    let one = [1, 2, 3, 0, 1, 2, 3, 4];
    let (t, h) = sensor_readings(&one).unwrap();
    assert_eq!(t, RawReading { quantity: 0, channel: 5, raw: 18, scale: Scale::Tenths });
    assert_eq!(h, RawReading { quantity: 1, channel: 5, raw: 52, scale: Scale::Units });
    let two = [2, 7, 1, 2, 3, 4, 5];
    let (t, h) = sensor_readings(&two).unwrap();
    assert_eq!(t, RawReading { quantity: 0, channel: 7, raw: 256 + 32 + 3, scale: Scale::Tenths });
    assert_eq!(h, RawReading { quantity: 1, channel: 7, raw: 69, scale: Scale::ThirdsOffset });
    assert_eq!(sensor_readings(&[3]), None);
}

#[test]
fn sensor_packet_ok_checks_fields() {
    assert!(sensor_packet_ok(&[1, 2, 3, 0, 1, 2, 3, 4]));
    assert!(!sensor_packet_ok(&[1, 2, 3]));
    assert!(!sensor_packet_ok(&[]));
    assert!(sensor_packet_ok(&[9]));
    assert!(!sensor_packet_ok(&[2, 0, usize::MAX, 0, 0, 0, 0]));
    assert!(!sensor_packet_ok(&[1, usize::MAX, 1, 0, 0, 0, 0, 0]));
}

#[test]
fn decode_cuts_long_packets_only() {
    assert_eq!(decode(&[1, 0, 1, 1], &[1, 3]), Some(vec![1, 3]));
    assert_eq!(decode(&[1, 0], &[1, 3]), None);
    assert!(decode_ok(&[1, 0], &[1, 3]));
    assert!(!decode_ok(&[1, 0], &[usize::MAX, 1]));
    assert!(!decode_ok(&[usize::MAX, 1], &[2]));
}
