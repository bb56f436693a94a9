use xorshiftr_wide::XorshiftrWide;

const LOW: [u64; 4] = [
    0x0123456789abcdef,
    0xfedcba9876543210,
    0xdeadbeefcafebabe,
    0x0f1e2d3c4b5a6978,
];

const HIGH: [u64; 4] = [0xffffffffffffffff, 0x8000000000000000, 0x1, 0xa5a5a5a5a5a5a5a5];

fn four_lanes() -> XorshiftrWide<4> {
    XorshiftrWide::<4>::from_lanes(LOW, HIGH).expect("the lanes are acceptable")
}

#[test]
fn sequential_seed_gives_the_known_first_group() {
    let mut next: u64 = 0;
    let mut generator = XorshiftrWide::<16>::new(|| {
        next += 1;
        next
    });
    let mut buffer = [0u64; 16];
    generator.fill_u64_buffer(&mut buffer);
    assert_eq!(
        buffer,
        [
            131073, 262146, 393219, 524292, 655365, 786438, 917511, 1048584, 1179657, 1310730,
            1441803, 1572876, 1703949, 1835022, 1966095, 2097168
        ]
    );
    assert_eq!(
        generator.low_words(),
        [17, 18, 19, 20, 21, 22, 23, 24, 25, 26, 27, 28, 29, 30, 31, 32]
    );
    assert_eq!(
        generator.high_words(),
        [
            131090, 262164, 393238, 524312, 655386, 786460, 917534, 1048608, 1179682, 1310756,
            1441830, 1572904, 1703978, 1835052, 1966126, 2097200
        ]
    );
}

#[test]
fn second_group_continues_the_sequence() {
    let mut next: u64 = 0;
    let mut generator = XorshiftrWide::<16>::new(|| {
        next += 1;
        next
    });
    let mut buffer = [0u64; 16];
    generator.fill_u64_buffer(&mut buffer);
    generator.fill_u64_buffer(&mut buffer);
    assert_eq!(
        buffer,
        [
            2228241, 2359314, 2490387, 2621460, 2752533, 2883606, 3014679, 3145752, 3276825,
            3407898, 3538971, 3670044, 3801117, 3932190, 4063263, 4194336
        ]
    );
}

#[test]
fn fill_with_a_tail_writes_every_word() {
    let mut generator = four_lanes();
    let mut buffer = vec![0u64; 11];
    generator.fill_u64_buffer(&mut buffer);
    assert_eq!(
        buffer,
        vec![
            10081548729822282492,
            9806347566459716348,
            11531638732014052651,
            6150442793347846638,
            288228177128456192,
            9367488324442259456,
            131073,
            17039502450965540590,
            4578169530344492398,
            4789837763585330537,
            11105886369767738779
        ]
    );
}

#[test]
fn fill_with_a_tail_steps_every_lane() {
    let mut generator = four_lanes();
    let mut buffer = vec![0u64; 11];
    generator.fill_u64_buffer(&mut buffer);
    assert_eq!(
        generator.low_words(),
        [
            10369776906950738683,
            9950463854047199996,
            11531638732014183725,
            16679329688886486657
        ]
    );
    assert_eq!(
        generator.high_words(),
        [
            14947946437295231081,
            14740301617632530533,
            4190781028072370888,
            1214986241847647975
        ]
    );
}

#[test]
fn high_word_is_a_wrapping_sum() {
    let mut generator = four_lanes();
    let mut buffer = [0u64; 4];
    generator.fill_u64_buffer(&mut buffer);
    let high: [u64; 4] = generator.high_words();
    assert_eq!(high[0], buffer[0].wrapping_add(0xffffffffffffffff));
    assert_eq!(high[0], 10081548729822282491);
    assert_eq!(high[1], buffer[1].wrapping_add(0x8000000000000000));
    assert_eq!(generator.low_words(), HIGH);
}

#[test]
fn short_fills_each_take_a_whole_step() {
    let mut generator = four_lanes();
    let mut first = [0u64; 1];
    let mut second = [0u64; 1];
    generator.fill_u64_buffer(&mut first);
    generator.fill_u64_buffer(&mut second);
    assert_eq!(first, [10081548729822282492]);
    assert_eq!(second, [288228177128456192]);

    let mut together = [0u64; 2];
    four_lanes().fill_u64_buffer(&mut together);
    assert_eq!(together, [10081548729822282492, 9806347566459716348]);
}

#[test]
fn empty_fill_changes_nothing() {
    let mut generator = four_lanes();
    let mut nothing: [u64; 0] = [];
    generator.fill_u64_buffer(&mut nothing);
    assert_eq!(generator.low_words(), LOW);
    assert_eq!(generator.high_words(), HIGH);

    let mut buffer = [0u64; 4];
    let mut untouched = four_lanes();
    let mut expected = [0u64; 4];
    generator.fill_u64_buffer(&mut buffer);
    untouched.fill_u64_buffer(&mut expected);
    assert_eq!(buffer, expected);
}

#[test]
fn single_lane_generator() {
    let mut generator = XorshiftrWide::<1>::from_lanes([5], [9]).expect("acceptable");
    let mut buffer = [0u64; 5];
    generator.fill_u64_buffer(&mut buffer);
    assert_eq!(
        buffer,
        [655365, 1179657, 85900787726, 240521445399, 11259481454815269]
    );
    assert_eq!(generator.low_words(), [326424068156]);
    assert_eq!(generator.high_words(), [11259807878883425]);
}

#[test]
fn default_fill_is_right_shift_first_by_23_and_17() {
    let mut by_default = four_lanes();
    let mut by_hand = four_lanes();
    let mut left = [0u64; 7];
    let mut right = [0u64; 7];
    by_default.fill_u64_buffer(&mut left);
    by_hand.fill_core::<false, 17, 23>(&mut right);
    assert_eq!(left, right);
    assert_eq!(by_default.low_words(), by_hand.low_words());
    assert_eq!(by_default.high_words(), by_hand.high_words());
}

#[test]
fn left_shift_first_configuration() {
    let mut generator = four_lanes();
    let mut buffer = [0u64; 4];
    generator.fill_core::<true, 17, 23>(&mut buffer);
    assert_eq!(
        buffer,
        [
            10082529494194302411,
            10082529494194213428,
            11777522517333548993,
            6153811696975444043
        ]
    );
    assert_eq!(
        generator.high_words(),
        [
            10082529494194302410,
            859157457339437620,
            11777522517333548994,
            18089940215258095088
        ]
    );
}

#[test]
fn other_shift_amounts_in_both_orders() {
    let mut left_first = four_lanes();
    let mut buffer = [0u64; 6];
    left_first.fill_core::<true, 13, 7>(&mut buffer);
    assert_eq!(
        buffer,
        [
            7592131338878452148,
            7592131338878459508,
            7611830211341068363,
            14640313019645133738,
            8128,
            9295429630892703744
        ]
    );
    let mut right_first = four_lanes();
    right_first.fill_core::<false, 13, 7>(&mut buffer);
    assert_eq!(
        buffer,
        [
            2403984568147647092,
            16094927435353954932,
            14097013674754582475,
            949370152438832554,
            18302628885633695744,
            9295429630892703744
        ]
    );
}

#[test]
fn extreme_shift_amounts() {
    let mut buffer = [1u64; 4];
    four_lanes().fill_core::<false, 0, 0>(&mut buffer);
    assert_eq!(buffer, [0, 0, 0, 0]);
    four_lanes().fill_core::<false, 63, 63>(&mut buffer);
    assert_eq!(
        buffer,
        [
            9305357566071262703,
            9141386507638288913,
            6822318947648322239,
            1089357896855742840
        ]
    );
}
