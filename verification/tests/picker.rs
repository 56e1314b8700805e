use maze::picker::Picker;

#[test]
fn replay_takes_the_word_modulo_the_count() {
    let options = vec![(0, 2), (2, 0), (4, 2)];
    let mut picker = Picker::replay(vec![0, 1, 2, 3, 7, 4294967295]);
    assert_eq!(picker.pick(&options), (0, 2));
    assert_eq!(picker.pick(&options), (2, 0));
    assert_eq!(picker.pick(&options), (4, 2));
    assert_eq!(picker.pick(&options), (0, 2));
    assert_eq!(picker.pick(&options), (2, 0));
    assert_eq!(picker.pick(&options), (0, 2));
}

#[test]
fn replay_reads_zero_past_the_end() {
    let options = vec![(6, 6), (8, 8)];
    let mut picker = Picker::replay(vec![1]);
    assert_eq!(picker.pick(&options), (8, 8));
    assert_eq!(picker.pick(&options), (6, 6));
    assert_eq!(picker.pick(&options), (6, 6));
}

#[test]
fn fresh_picks_one_of_the_options() {
    let options = vec![(0, 2), (2, 0), (4, 2), (2, 4)];
    let mut picker = Picker::fresh();
    for _ in 0..200 {
        let chosen = picker.pick(&options);
        assert!(options.contains(&chosen));
    }
}

#[test]
fn fresh_picks_the_only_option() {
    let options = vec![(10, 12)];
    let mut picker = Picker::fresh();
    assert_eq!(picker.pick(&options), (10, 12));
}

#[test]
fn fresh_picks_vary() {
    let options = vec![(0, 2), (2, 0), (4, 2), (2, 4)];
    let mut picker = Picker::fresh();
    let first = picker.pick(&options);
    let mut varied = false;
    for _ in 0..1000 {
        if picker.pick(&options) != first {
            varied = true;
        }
    }
    assert!(varied);
}

#[test]
fn seeded_pickers_agree_on_the_same_seed() {
    let options = vec![(0, 2), (2, 0), (4, 2), (2, 4)];
    let mut first = Picker::seeded(17, 64);
    let mut second = Picker::seeded(17, 64);
    for _ in 0..80 {
        let chosen = first.pick(&options);
        assert!(options.contains(&chosen));
        assert_eq!(chosen, second.pick(&options));
    }
}

#[test]
fn seeded_pickers_differ_between_seeds() {
    let options = vec![(0, 2), (2, 0), (4, 2), (2, 4)];
    let mut first = Picker::seeded(1, 64);
    let mut second = Picker::seeded(2, 64);
    let mut differ = false;
    for _ in 0..64 {
        if first.pick(&options) != second.pick(&options) {
            differ = true;
        }
    }
    assert!(differ);
}

#[test]
fn seeded_picker_without_words_reads_zero() {
    let options = vec![(3, 3), (5, 5)];
    let mut picker = Picker::seeded(99, 0);
    assert_eq!(picker.pick(&options), (3, 3));
    assert_eq!(picker.pick(&options), (3, 3));
}
