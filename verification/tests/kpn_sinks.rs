use ratpak::kpn::{
    applicator, applicator_vecs, cross_applicator, cross_applicator_vecs, delay, delay_vecs,
    differentiator, fork, looper_optional, shaper, shaper_optional, shaper_vecs, unpacketizer,
    Differentiator, ShaperOptional,
};
use ratpak::outlet::{code_bits, code_runs, outlet_bits, outlet_code, OutletError, LONG, SHORT, SILENCE};
use ratpak::readings::DataTypes;
use ratpak::streams::{applicatorVecs, crossApplicator, crossApplicatorVecs, delayVecs};
use ratpak::unpackers::{temp_b_vote, temp_packet_a, temp_packet_b};
use ratpak::vidsink::{vidSink, SinkEvent, VidSink};

#[test]
fn differentiator_drops_repeats() {
    assert_eq!(differentiator(&[1, 1, 2, 2, 3, 1]), vec![1, 2, 3, 1]);
    assert_eq!(differentiator(&[4]), vec![4]);
    assert_eq!(differentiator(&[4, 4, 4]), vec![4]);
    assert_eq!(differentiator(&[]), Vec::<usize>::new());
    let mut d = Differentiator::new();
    assert_eq!(d.step(0), Some(0));
    assert_eq!(d.step(0), None);
    assert_eq!(d.step(1), Some(1));
}

#[test]
fn differentiator_of_runs_gives_run_values() {
    let s = ratpak::runs::rld(&[(5usize, 2usize), (1, 1), (5, 3)]);
    assert_eq!(differentiator(&s), vec![5, 1, 5]);
}

#[test]
fn unpacketizer_flattens() {
    assert_eq!(unpacketizer(vec![vec![1, 2], vec![], vec![3]]), vec![1, 2, 3]);
    assert_eq!(shaper_vecs(vec![vec!["a"], vec!["b", "c"]]), vec!["a", "b", "c"]);
}

#[test]
fn looper_optional_keeps_values() {
    assert_eq!(looper_optional(vec![Some(1), None, Some(3), None]), vec![1, 3]);
}

#[test]
fn delay_sends_initial_value_first() {
    assert_eq!(delay(vec![1, 2], 0), vec![0, 1, 2]);
    assert_eq!(delay_vecs(vec![vec![1]], vec![]), vec![vec![], vec![1]]);
    assert_eq!(delayVecs(Vec::<u8>::new(), 9), vec![9]);
}

#[test]
fn shaper_cuts_whole_vectors() {
    assert_eq!(shaper((1..=7).collect(), 3), vec![vec![1, 2, 3], vec![4, 5, 6]]);
    assert_eq!(shaper((1..=6).collect(), 3).len(), 2);
    assert_eq!(shaper((1..=6).collect(), 1).len(), 6);
    assert_eq!(shaper(vec![1, 2], 3), Vec::<Vec<i32>>::new());
}

#[test]
fn shaper_optional_sends_full_collections() {
    let input = vec![Some(1), Some(2), None, Some(3), None, None, Some(4), Some(5), None];
    assert_eq!(shaper_optional(input.clone(), 2), vec![vec![1, 2], vec![4, 5]]);
    assert_eq!(shaper_optional(input, 0), vec![Vec::<i32>::new()]);
    let mut st = ShaperOptional::new(1);
    assert_eq!(st.step(Some(8)), None);
    assert_eq!(st.step(None), Some(vec![8]));
    assert_eq!(ratpak::streams::shaper(vec![Some(1), None], 1), vec![vec![1]]);
}

#[test]
fn fork_copies_stream() {
    assert_eq!(fork(&[1, 2], 3), vec![vec![1, 2], vec![1, 2], vec![1, 2]]);
    assert_eq!(fork(&[1, 2], 0), Vec::<Vec<i32>>::new());
    assert_eq!(ratpak::kpn::vec(&["x", "y"]), vec!["x", "y"]);
}

#[test]
fn applicators_map_functions() {
    assert_eq!(applicator(vec![1, 2, 3], &|x: i32| x * 10), vec![10, 20, 30]);
    assert_eq!(cross_applicator(vec![1, 2], &|x: i32| x > 1), vec![false, true]);
    assert_eq!(applicator_vecs(vec![vec![1], vec![2, 3]], &|x: &i32| x + 1), vec![vec![2], vec![3, 4]]);
    assert_eq!(cross_applicator_vecs(vec![vec![1, 2]], &|x: &i32| *x as u8), vec![vec![1u8, 2]]);
    assert_eq!(applicatorVecs(vec![vec![5]], &|x: &i32| -x), vec![vec![-5]]);
    assert_eq!(crossApplicator(vec![3], &|x: i32| x.to_string()), vec!["3".to_string()]);
    assert_eq!(crossApplicatorVecs(vec![vec![2]], &|x: &i32| x * x), vec![vec![4]]);
}

#[test]
fn temp_packet_a_needs_36_digits() {
    let mut bits = vec![0usize; 36];
    bits[13] = 1; // id = 1
    bits[15] = 1; // channel = 1
    bits[27] = 1; // temperature = 1
    bits[35] = 1; // humidity = 1
    assert_eq!(temp_packet_a(&bits), Some(vec![1, 1, 1, 1]));
    assert_eq!(temp_packet_a(&bits[1..]), None);
}

fn burst(len: usize, starts: [usize; 3], copies: [&[usize]; 3]) -> Vec<usize> {
    let mut b = vec![0usize; len];
    for k in 0..3 {
        for (i, &d) in copies[k].iter().enumerate() {
            b[starts[k] + i] = d;
        }
    }
    b
}

#[test]
fn temp_packet_b_votes() {
    let mut m = vec![0usize; 50];
    m[5] = 1; // first field = 1
    m[49] = 1; // last field = 1
    let bad = vec![1usize; 50];
    let b = burst(184, [4, 69, 134], [&m, &bad, &m]);
    assert_eq!(temp_b_vote(&b), Some(m.clone()));
    assert_eq!(temp_packet_b(&b), Some(vec![1, 0, 0, 0, 0, 0, 0, 0, 0, 1]));
    let b = burst(195, [15, 80, 145], [&bad, &m, &m]);
    assert_eq!(temp_b_vote(&b), Some(m.clone()));
    let mut other = m.clone();
    other[0] = 1;
    let b = burst(195, [15, 80, 145], [&bad, &m, &other]);
    assert_eq!(temp_b_vote(&b), None);
    assert_eq!(temp_packet_b(&b), None);
    assert_eq!(temp_packet_b(&vec![0usize; 100]), None);
}

#[test]
fn outlet_code_runs() {
    let runs = code_runs(&[Some(1), Some(0), Some(7), None]);
    assert_eq!(runs.len(), 5 * 5);
    let first: Vec<(usize, usize)> = runs[..5].iter().map(|r| (r.v, r.ct)).collect();
    assert_eq!(first, vec![(1, LONG), (0, SHORT), (1, SHORT), (0, LONG), (0, SILENCE)]);
    let bits = code_bits(Some(vec![Some(1)]));
    assert_eq!(bits.len(), 5 * (LONG + SHORT + SILENCE));
    assert_eq!(code_bits(None).len(), 0);
}

#[test]
fn vid_sink_shifts_samples() {
    let frames = vidSink(
        vec![SinkEvent::Sample(1), SinkEvent::Other, SinkEvent::Frame(vec![7, 8]), SinkEvent::Sample(9)],
        0,
    );
    assert_eq!(frames.len(), 4);
    assert_eq!(frames[0].len(), 102);
    assert_eq!(frames[0][0], 1);
    assert_eq!(frames[1], frames[0]);
    assert_eq!(frames[2], vec![7, 8]);
    assert_eq!(frames[3], vec![9, 7]);
    let mut w = VidSink::with_width(0u8, 3);
    assert_eq!(w.step(SinkEvent::Sample(5)), vec![5, 0, 0]);
    let mut s = VidSink::new(0u8);
    assert_eq!(s.step(SinkEvent::Frame(vec![])), Vec::<u8>::new());
    assert_eq!(s.step(SinkEvent::Sample(3)), vec![3]);
}

#[test]
fn data_types_compare() {
    assert!(DataTypes::temperature != DataTypes::relativeHumidity);
}

#[test]
fn outlet_code_reads_toml() {
    let text = "[db]\nlamp = [1, 0]\nfan = 3\n";
    let bits = outlet_code(text, "lamp").unwrap();
    assert_eq!(bits, code_bits(Some(vec![Some(1), Some(0)])));
    assert_eq!(bits.len(), 5 * (2 * (LONG + SHORT) + SILENCE));
    assert!(bits.get(0).unwrap());
    assert!(!bits.get(LONG).unwrap());
    assert_eq!(outlet_code(text, "heater").unwrap().len(), 0);
    assert_eq!(outlet_code(text, "fan"), Err(OutletError::NotAList));
    assert_eq!(outlet_code("[db\nlamp = ", "lamp"), Err(OutletError::Unparsable));
    assert_eq!(outlet_code("[other]\nlamp = [1]\n", "lamp").unwrap().len(), 0);
    let mixed = outlet_code("[db]\nx = [1, \"a\", 0]\n", "x").unwrap();
    assert_eq!(mixed, code_bits(Some(vec![Some(1), None, Some(0)])));
}

#[test]
fn outlet_bits_covers_each_entry() {
    assert_eq!(outlet_bits(None), Err(OutletError::Unparsable));
    assert_eq!(outlet_bits(Some(Some(None))), Err(OutletError::NotAList));
    assert_eq!(outlet_bits(Some(None)).unwrap().len(), 0);
    assert_eq!(outlet_bits(Some(Some(Some(vec![Some(0)])))).unwrap().len(), 5 * (LONG + SHORT + SILENCE));
}

#[test]
fn vid_sink_window_after_samples() {
    let mut w = VidSink::with_width(0i32, 4);
    for y in [1, 2, 3] {
        w.step(SinkEvent::Sample(y));
    }
    assert_eq!(w.x, vec![3, 2, 1, 0]);
    for y in [4, 5, 6] {
        w.step(SinkEvent::Sample(y));
    }
    assert_eq!(w.x, vec![6, 5, 4, 3]);
}
