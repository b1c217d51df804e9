use ratpak::bits::{b2d, b2d_checked, binconv, decoder, eat, fields_fit};
use ratpak::runs::{rld, rle, RleState};

#[test]
fn b2d_reads_most_significant_digit_first() {
    assert_eq!(b2d(&[1, 0, 1]), 5);
    assert_eq!(b2d(&[0, 0, 1, 1]), 3);
    assert_eq!(b2d(&[]), 0);
}

#[test]
fn b2d_weighs_any_digit() {
    // digits are weighted by position whatever their size
    assert_eq!(b2d(&[2, 1]), 5);
    assert_eq!(b2d(&[3, 0, 0]), 12);
}

#[test]
fn b2d_checked_agrees_and_refuses_overflow() {
    assert_eq!(b2d_checked(&[1, 1, 0]), Some(6));
    let too_long = vec![0usize; usize::BITS as usize + 1];
    assert_eq!(b2d_checked(&too_long), None);
    let all_ones = vec![1usize; usize::BITS as usize];
    assert_eq!(b2d_checked(&all_ones), Some(usize::MAX));
    assert_eq!(b2d_checked(&[usize::MAX, 0]), None);
}

#[test]
fn eat_cuts_fields() {
    assert_eq!(eat(&[1, 0, 1, 1, 0], &[2, 3]), vec![2, 6]);
    assert_eq!(eat(&[1, 0, 1, 1, 0, 1, 1], &[2, 3]), vec![2, 6]);
    assert_eq!(eat(&[1, 1], &[]), Vec::<usize>::new());
    assert_eq!(eat(&[1, 1, 1], &[0, 3, 0]), vec![0, 7, 0]);
}

#[test]
fn eat_fields_recombine_to_the_whole_number() {
    let bits = [1, 0, 1, 1, 0, 1, 0, 0, 1];
    let widths = [3, 4, 2];
    let fields = eat(&bits, &widths);
    let mut whole = 0usize;
    for (f, w) in fields.iter().zip(widths.iter()) {
        whole = (whole << w) + f;
    }
    assert_eq!(whole, b2d(&bits));
}

#[test]
fn fields_fit_checks_widths_and_overflow() {
    assert!(fields_fit(&[1, 0, 1], &[1, 2]));
    assert!(!fields_fit(&[1, 0, 1], &[2, 2]));
    assert!(!fields_fit(&[usize::MAX, 1], &[2]));
    assert!(fields_fit(&[], &[]));
}

#[test]
fn binconv_decodes_every_packet() {
    let packets = vec![vec![1, 1, 0, 1], vec![0, 1, 1, 0]];
    assert_eq!(binconv(&packets, &[2, 2]), vec![vec![3, 1], vec![1, 2]]);
}

#[test]
fn decoder_drops_short_packets() {
    let packets = vec![vec![1, 1, 0], vec![1, 0, 1, 1], vec![1]];
    assert_eq!(decoder(&packets, &[1, 3]), vec![vec![1, 3]]);
    assert_eq!(decoder(&packets, &[]), vec![vec![], vec![], vec![]]);
}

#[test]
fn rle_sends_ended_runs() {
    assert_eq!(rle(&[1, 1, 2, 2, 2, 3]), vec![(1, 2), (2, 3)]);
    assert_eq!(rle(&[]), Vec::<(usize, usize)>::new());
    assert_eq!(rle(&[7]), Vec::<(usize, usize)>::new());
    assert_eq!(rle(&[0, 1, 0, 1]), vec![(0, 1), (1, 1), (0, 1)]);
}

#[test]
fn rle_state_steps() {
    let mut st = RleState::new(4);
    assert_eq!(st.step(4), None);
    assert_eq!(st.step(4), None);
    assert_eq!(st.step(5), Some((4, 3)));
    assert_eq!((st.cur, st.count), (5, 1));
}

#[test]
fn rld_expands_runs() {
    assert_eq!(rld(&[(1usize, 2usize), (0, 3)]), vec![1, 1, 0, 0, 0]);
    assert_eq!(rld(&[(9usize, 0usize)]), Vec::<usize>::new());
    assert_eq!(rld(&[("a", 1usize), ("b", 2)]), vec!["a", "b", "b"]);
}

#[test]
fn rld_of_rle_with_pending_run_gives_stream_back() {
    let s = [3, 3, 1, 0, 0, 0, 3];
    let mut runs = rle(&s);
    let mut st = RleState::new(s[0]);
    for &y in &s[1..] {
        st.step(y);
    }
    runs.push((st.cur, st.count));
    assert_eq!(rld(&runs), s.to_vec());
}
