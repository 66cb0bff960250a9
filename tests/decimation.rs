use rtty_receiver::decimate::DecimatingStage;

/// Runs a cascade of stages on `fresh`, each output being the sum of its
/// window times the stage number plus one.
fn run(stages: &mut Vec<DecimatingStage<i64>>, fresh: &[i64]) -> Vec<i64> {
    let mut data = fresh.to_vec();
    for (n, stage) in stages.iter_mut().enumerate() {
        let (input, count) = stage.feed(&data);
        let len = stage.filter_len;
        let dec = stage.decimation;
        data = (0..count)
            .map(|k| input[k * dec..k * dec + len].iter().sum::<i64>() * (n as i64 + 1))
            .collect();
    }
    data
}

#[test]
fn stage_windows_and_carry() {
    let mut s: DecimatingStage<i64> = DecimatingStage::new(5, 2);
    let (input, count) = s.feed(&(0..10).collect());
    assert_eq!(input, (0..10).collect::<Vec<i64>>());
    // windows start at 0, 2 and 4
    assert_eq!(count, 3);
    assert_eq!(s.skip, 0);
    assert_eq!(s.carry, vec![6, 7, 8, 9]);
    let (input, count) = s.feed(&vec![10, 11]);
    assert_eq!(input, vec![6, 7, 8, 9, 10, 11]);
    assert_eq!(count, 1);
    assert_eq!(s.carry, vec![8, 9, 10, 11]);
}

#[test]
fn stage_skips_between_sparse_windows() {
    // one tap, every fourth sample
    let mut s: DecimatingStage<i64> = DecimatingStage::new(1, 4);
    let (input, count) = s.feed(&vec![0, 1, 2, 3, 4, 5]);
    assert_eq!((input.len(), count), (6, 2));
    assert_eq!(s.skip, 2);
    assert!(s.carry.is_empty());
    let (input, count) = s.feed(&vec![6]);
    assert!(input.is_empty());
    assert_eq!(count, 0);
    assert_eq!(s.skip, 1);
    let (input, count) = s.feed(&vec![7, 8, 9]);
    assert_eq!(input, vec![8, 9]);
    assert_eq!(count, 1);
    // the next window starts at 12, two samples after the 9
    assert_eq!(s.skip, 2);
    assert!(s.carry.is_empty());
}

#[test]
fn stage_short_input_is_carried() {
    let mut s: DecimatingStage<i64> = DecimatingStage::new(7, 3);
    let (input, count) = s.feed(&vec![1, 2, 3]);
    assert_eq!(input, vec![1, 2, 3]);
    assert_eq!(count, 0);
    assert_eq!(s.carry, vec![1, 2, 3]);
}

#[test]
fn cascade_split_matches_single_call() {
    let stream: Vec<i64> = (0..200).map(|i| (i * 37 % 101) - 50).collect();
    let make = || vec![DecimatingStage::new(5, 2), DecimatingStage::new(3, 4), DecimatingStage::new(1, 3)];
    let mut whole = make();
    let all = run(&mut whole, &stream);
    assert!(!all.is_empty());
    for cut in 0..=stream.len() {
        let mut split = make();
        let mut out = run(&mut split, &stream[..cut]);
        out.extend(run(&mut split, &stream[cut..]));
        assert_eq!(out, all, "cut at {}", cut);
        for (x, y) in split.iter().zip(whole.iter()) {
            assert_eq!((x.skip, &x.carry), (y.skip, &y.carry));
        }
    }
}

#[test]
fn cascade_fed_sample_by_sample() {
    let stream: Vec<i64> = (0..300).map(|i| i % 7).collect();
    let make = || vec![DecimatingStage::new(9, 2), DecimatingStage::new(5, 2)];
    let mut whole = make();
    let all = run(&mut whole, &stream);
    let mut single = make();
    let mut out = Vec::new();
    for x in &stream {
        out.extend(run(&mut single, &[*x]));
    }
    assert_eq!(out, all);
    // 300 samples: the first stage gives 146 outputs, the second 71
    assert_eq!(all.len(), 71);
}
