use fon::frames::{deinterleave, interleave};

#[test]
fn deinterleave_stereo() {
    let lanes = deinterleave(&[1, 10, 2, 20, 3, 30], 2);
    assert_eq!(lanes, vec![vec![1, 2, 3], vec![10, 20, 30]]);
}

#[test]
fn deinterleave_mono_is_the_input() {
    let lanes = deinterleave(&[4, 5, 6], 1);
    assert_eq!(lanes, vec![vec![4, 5, 6]]);
}

#[test]
fn deinterleave_nothing() {
    let none: [u8; 0] = [];
    let lanes = deinterleave(&none, 3);
    assert_eq!(lanes, vec![Vec::<u8>::new(), Vec::new(), Vec::new()]);
}

#[test]
fn interleave_appends_frames() {
    let lanes = vec![vec![1, 2, 3], vec![10, 20, 30]];
    let mut out = vec![7, 8];
    interleave(&lanes, 3, &mut out);
    assert_eq!(out, vec![7, 8, 1, 10, 2, 20, 3, 30]);
}

#[test]
fn interleave_takes_only_the_frames_asked_for() {
    let lanes = vec![vec![1, 2, 3], vec![10, 20, 30], vec![100, 200, 300]];
    let mut out = Vec::new();
    interleave(&lanes, 2, &mut out);
    assert_eq!(out, vec![1, 10, 100, 2, 20, 200]);
    interleave(&lanes, 0, &mut out);
    assert_eq!(out.len(), 6);
}

#[test]
fn interleave_undoes_deinterleave() {
    let samples: Vec<u32> = (0..60).collect();
    for channels in [1usize, 2, 3, 4, 5, 6] {
        let lanes = deinterleave(&samples, channels);
        assert_eq!(lanes.len(), channels);
        let mut back = Vec::new();
        interleave(&lanes, samples.len() / channels, &mut back);
        assert_eq!(back, samples);
    }
}
