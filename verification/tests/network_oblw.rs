use bit_vec::BitVec;
use ratpak::network::{spinUp, Parts, Spawn, SpinUpError};
use ratpak::oblw::{assemble_packet, idle_packet, b2B, bits_to_packets, r2b, rld, v2b, Run, B2b};

type P = Parts<&'static str, &'static str, &'static str>;

fn describe(s: &Spawn<&'static str, &'static str, &'static str>) -> String {
    match s {
        Spawn::Head { g, out } => format!("{}>{}", g, out),
        Spawn::Body { g, input, out } => format!("{}>{}:{}", input, g, out),
        Spawn::Tail { g, input } => format!("{}>{}", input, g),
        Spawn::Fork { input, out1, out2 } => format!("{}>fork:{},{}", input, out1, out2),
        Spawn::Funnel { in1, in2, out } => format!("{},{}>funnel:{}", in1, in2, out),
    }
}

#[test]
fn spin_up_chains_bodies() {
    let g: Vec<P> = vec![Parts::Head("src"), Parts::Body("a"), Parts::Body("b")];
    let w = spinUp(g, vec![], 0).ok().unwrap();
    let d: Vec<String> = w.spawns.iter().map(describe).collect();
    assert_eq!(d, vec!["src>0", "0>a:1", "1>b:2"]);
    assert_eq!(w.output, Some(2));
    assert_eq!(w.next, 3);
}

#[test]
fn spin_up_tail_ends_graph() {
    let g: Vec<P> = vec![Parts::Head("src"), Parts::Tail("sink")];
    let w = spinUp(g, vec![], 10).ok().unwrap();
    let d: Vec<String> = w.spawns.iter().map(describe).collect();
    assert_eq!(d, vec!["src>10", "10>sink"]);
    assert_eq!(w.output, None);
    assert_eq!(w.next, 11);
}

#[test]
fn spin_up_fork_and_funnel() {
    let g: Vec<P> = vec![Parts::Body("a"), Parts::Fork, Parts::Funnel, Parts::Body("b")];
    let w = spinUp(g, vec![7], 20).ok().unwrap();
    let d: Vec<String> = w.spawns.iter().map(describe).collect();
    assert_eq!(d, vec!["7>a:20", "20>fork:21,22", "21,22>funnel:23", "23>b:24"]);
    assert_eq!(w.output, Some(24));
}

#[test]
fn spin_up_leg_hands_back_its_stream() {
    let leg: Vec<P> = vec![Parts::Body("inner")];
    let g: Vec<P> = vec![Parts::Head("src"), Parts::Leg(leg), Parts::Body("outer")];
    let w = spinUp(g, vec![], 0).ok().unwrap();
    let d: Vec<String> = w.spawns.iter().map(describe).collect();
    assert_eq!(d, vec!["src>0", "0>inner:1", "1>outer:2"]);
    assert_eq!(w.output, Some(2));
}

#[test]
fn spin_up_errors() {
    let empty: Vec<P> = vec![];
    assert_eq!(spinUp(empty, vec![], 0).err(), Some(SpinUpError::EmptyGraph));
    let lonely: Vec<P> = vec![Parts::Body("a")];
    assert_eq!(spinUp(lonely, vec![], 0).err(), Some(SpinUpError::MissingPort));
    let funnel: Vec<P> = vec![Parts::Head("a"), Parts::Funnel];
    assert_eq!(spinUp(funnel, vec![], 0).err(), Some(SpinUpError::MissingPort));
    let empty_leg: Vec<P> = vec![Parts::Head("a"), Parts::Leg(vec![])];
    assert_eq!(spinUp(empty_leg, vec![], 0).err(), Some(SpinUpError::EmptyGraph));
}

#[test]
fn oblw_rld_expands_runs() {
    let runs = vec![Run { v: 1, ct: 2 }, Run { v: 0, ct: 1 }, Run { v: 5, ct: 0 }];
    assert_eq!(rld(runs), vec![1, 1, 0]);
}

#[test]
fn bytes_bits_roundtrip() {
    let bytes = [0b1010_0000u8, 0b0001_0010, 0xff, 0];
    let bv = B2b(&bytes);
    assert!(bv.eq_vec(&[
        true, false, true, false, false, false, false, false, false, false, false, true, false,
        false, true, false, true, true, true, true, true, true, true, true, false, false, false,
        false, false, false, false, false
    ]));
    assert_eq!(b2B(bv), bytes.to_vec());
}

#[test]
fn v2b_sets_ones_only() {
    let bv = v2b(vec![1, 0, 2, 1]);
    assert!(bv.eq_vec(&[true, false, false, true]));
    assert_eq!(b2B(bv), vec![0b1001_0000]);
    assert_eq!(b2B(v2b(vec![])), Vec::<u8>::new());
}

#[test]
fn r2b_expands_runs_into_bits() {
    let bv = r2b(vec![Run { v: 1, ct: 3 }, Run { v: 0, ct: 6 }]);
    assert_eq!(bv.len(), 9);
    assert_eq!(b2B(bv), vec![0b1110_0000, 0]);
}

#[test]
fn packets_are_padded_to_64_bytes() {
    let bytes: Vec<u8> = (0..65u32).map(|i| i as u8 + 1).collect();
    let packets = bits_to_packets(BitVec::from_bytes(&bytes));
    assert_eq!(packets.len(), 2);
    assert_eq!(packets[0], bytes[..64].to_vec());
    let mut last = vec![0u8; 64];
    last[0] = 65;
    assert_eq!(packets[1], last);
    assert!(bits_to_packets(BitVec::new()).is_empty());
}

#[test]
fn assemble_packet_copies_or_inverts() {
    let mut y = [7u8; 4];
    assemble_packet(&mut y, &[0x0f, 0xf0], true);
    assert_eq!(y, [0x0f, 0xf0, 7, 7]);
    let mut z = [7u8; 3];
    assemble_packet(&mut z, &[0x0f, 0x00], false);
    assert_eq!(z, [0xf0, 0xff, 7]);
}

#[test]
fn idle_packet_is_high_on_the_line() {
    assert_eq!(idle_packet(true), [0xffu8; 64]);
    assert_eq!(idle_packet(false), [0xffu8; 64]);
}
