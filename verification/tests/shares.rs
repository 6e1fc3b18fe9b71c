use gitsplits::{compute_share, PERCENTAGE_SCALE};

const PERCENT: u128 = PERCENTAGE_SCALE / 100;

#[test]
fn scale_is_ten_to_the_twenty_third() {
    assert_eq!(PERCENTAGE_SCALE, 10u128.pow(23));
    assert_eq!(PERCENTAGE_SCALE, 100_000_000_000_000_000_000_000);
}

#[test]
fn sixty_forty_of_a_thousand() {
    assert_eq!(compute_share(1000, 60 * PERCENT), 600);
    assert_eq!(compute_share(1000, 40 * PERCENT), 400);
}

#[test]
fn shares_round_down() {
    let third = 3333 * PERCENT / 100;
    let two_thirds = 6667 * PERCENT / 100;
    assert_eq!(third + two_thirds, PERCENTAGE_SCALE);
    assert_eq!(compute_share(7, third), 2);
    assert_eq!(compute_share(7, two_thirds), 4);
    assert!(compute_share(7, third) + compute_share(7, two_thirds) <= 7);
}

#[test]
fn whole_and_nothing() {
    assert_eq!(compute_share(0, PERCENTAGE_SCALE), 0);
    assert_eq!(compute_share(12345, 0), 0);
    assert_eq!(compute_share(12345, PERCENTAGE_SCALE), 12345);
    assert_eq!(compute_share(u128::MAX, PERCENTAGE_SCALE), u128::MAX);
}

#[test]
fn amounts_beyond_sixty_four_bits() {
    assert_eq!(
        compute_share(u128::MAX, PERCENTAGE_SCALE / 2),
        170141183460469231731687303715884105727
    );
    assert_eq!(compute_share(u128::MAX, 1), 3402823669209384);
    assert_eq!(
        compute_share(u128::MAX, PERCENTAGE_SCALE - 1),
        340282366920938463463371204608099002070
    );
    assert_eq!(
        compute_share(u128::MAX, 33333333333333333333333),
        113427455640312821154457068202699667356
    );
    assert_eq!(
        compute_share(12345678901234567890123456789012345, 30 * PERCENT),
        3703703670370370367037037036703703
    );
    assert_eq!(
        compute_share(12345678901234567890123456789012345, 12345678901234567890123),
        1524157875323883675049478762551947
    );
    assert_eq!(
        compute_share(99999999999999999999999999999999999999, 99999999999999999999999),
        99999999999999999999998999999999999999
    );
}

#[test]
fn amounts_around_the_scale() {
    assert_eq!(compute_share(10u128.pow(30), 1), 10_000_000);
    assert_eq!(
        compute_share(PERCENTAGE_SCALE - 1, PERCENTAGE_SCALE - 1),
        99999999999999999999998
    );
    assert_eq!(
        compute_share(PERCENTAGE_SCALE + 1, PERCENTAGE_SCALE - 1),
        99999999999999999999999
    );
}

#[test]
fn shares_agree_with_the_plain_formula_where_it_fits() {
    let amounts = [0u128, 1, 7, 999, 1000, 123_456_789, 1 << 40];
    let percentages = [1u128, 12_345, PERCENT / 7, PERCENT, 50 * PERCENT, PERCENTAGE_SCALE];
    for amount in amounts {
        for percentage in percentages {
            assert_eq!(
                compute_share(amount, percentage),
                amount * percentage / PERCENTAGE_SCALE
            );
        }
    }
}
