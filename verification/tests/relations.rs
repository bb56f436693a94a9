use xorshiftr_wide::XorshiftrWide;

fn seeded(start: u64) -> XorshiftrWide<16> {
    let mut word: u64 = start;
    XorshiftrWide::<16>::new(|| {
        word = word.wrapping_mul(6364136223846793005).wrapping_add(1442695040888963407);
        word
    })
}

fn filled(generator: &mut XorshiftrWide<16>, len: usize) -> Vec<u64> {
    let mut buffer = vec![0u64; len];
    generator.fill_u64_buffer(&mut buffer);
    buffer
}

#[test]
fn equal_seeds_give_equal_outputs() {
    let mut left = seeded(7);
    let mut right = seeded(7);
    let lens: [usize; 8] = [0, 1, 16, 17, 5, 64, 31, 100];
    for len in lens {
        assert_eq!(filled(&mut left, len), filled(&mut right, len));
    }
    assert_eq!(left.low_words(), right.low_words());
    assert_eq!(left.high_words(), right.high_words());
}

#[test]
fn different_seeds_give_different_outputs() {
    let mut left = seeded(7);
    let mut right = seeded(8);
    assert_ne!(filled(&mut left, 16), filled(&mut right, 16));
}

#[test]
fn tail_words_are_the_start_of_the_next_group() {
    for k in 1..16usize {
        let mut in_one = seeded(11);
        let long = filled(&mut in_one, 16 + k);

        let mut in_two = seeded(11);
        let first = filled(&mut in_two, 16);
        let second = filled(&mut in_two, 16);

        assert_eq!(&long[..16], &first[..]);
        assert_eq!(&long[16..], &second[..k]);
        assert_eq!(in_one.low_words(), in_two.low_words());
        assert_eq!(in_one.high_words(), in_two.high_words());
    }
}

#[test]
fn fills_add_up_after_whole_groups() {
    let firsts: [usize; 4] = [0, 16, 32, 160];
    let seconds: [usize; 6] = [0, 1, 15, 16, 17, 50];
    for a in firsts {
        for b in seconds {
            let mut in_two = seeded(3);
            let mut joined = filled(&mut in_two, a);
            joined.extend(filled(&mut in_two, b));

            let mut in_one = seeded(3);
            assert_eq!(joined, filled(&mut in_one, a + b));
            assert_eq!(in_one.low_words(), in_two.low_words());
            assert_eq!(in_one.high_words(), in_two.high_words());
        }
    }
}

#[test]
fn an_empty_second_fill_adds_nothing() {
    let mut in_two = seeded(3);
    let mut joined = filled(&mut in_two, 21);
    joined.extend(filled(&mut in_two, 0));
    let mut in_one = seeded(3);
    assert_eq!(joined, filled(&mut in_one, 21));
    assert_eq!(in_one.low_words(), in_two.low_words());
}

#[test]
fn a_fill_that_ends_inside_a_group_starts_the_next_one_afresh() {
    let mut in_two = seeded(3);
    let mut joined = filled(&mut in_two, 5);
    joined.extend(filled(&mut in_two, 5));

    let mut in_one = seeded(3);
    let long = filled(&mut in_one, 32);
    assert_eq!(&joined[..5], &long[..5]);
    assert_eq!(&joined[5..], &long[16..21]);
}

#[test]
fn a_shorter_fill_is_a_prefix_of_a_longer_one() {
    let long = filled(&mut seeded(21), 77);
    for len in [0usize, 1, 15, 16, 17, 48, 76] {
        assert_eq!(filled(&mut seeded(21), len)[..], long[..len]);
    }
}

#[test]
fn zero_length_fill_is_a_no_op() {
    let mut generator = seeded(5);
    let low: [u64; 16] = generator.low_words();
    let high: [u64; 16] = generator.high_words();
    assert!(filled(&mut generator, 0).is_empty());
    assert_eq!(generator.low_words(), low);
    assert_eq!(generator.high_words(), high);
}
