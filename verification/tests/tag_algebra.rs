use rti::tag::{StartTime, Tag, FOREVER, FOREVER_MICROSTEP, NEVER, NEVER_MICROSTEP};

#[test]
fn sentinels_have_their_documented_values() {
    assert_eq!(Tag::never_tag(), Tag::new(i64::MIN, 0));
    assert_eq!(Tag::forever_tag(), Tag::new(i64::MAX, u32::MAX));
    assert_eq!(Tag::zero_tag(), Tag::new(0, 0));
    assert_eq!(NEVER, i64::MIN);
    assert_eq!(FOREVER, i64::MAX);
    assert_eq!(NEVER_MICROSTEP, 0);
    assert_eq!(FOREVER_MICROSTEP, u32::MAX);
}

#[test]
fn accessors_read_and_write_both_fields() {
    let mut tag = Tag::new(7, 3);
    assert_eq!(tag.time(), 7);
    assert_eq!(tag.microstep(), 3);
    tag.set_time(-2);
    assert_eq!(tag, Tag::new(-2, 3));
    tag.set_microstep(9);
    assert_eq!(tag, Tag::new(-2, 9));
}

#[test]
fn start_time_begins_at_never_and_can_be_set() {
    let mut start = StartTime::new();
    assert_eq!(start.start_time(), NEVER);
    start.set_start_time(1_000);
    assert_eq!(start.start_time(), 1_000);
}

#[test]
fn compare_orders_by_time_then_microstep() {
    assert_eq!(Tag::lf_tag_compare(&Tag::new(1, 9), &Tag::new(2, 0)), -1);
    assert_eq!(Tag::lf_tag_compare(&Tag::new(2, 0), &Tag::new(1, 9)), 1);
    assert_eq!(Tag::lf_tag_compare(&Tag::new(5, 1), &Tag::new(5, 2)), -1);
    assert_eq!(Tag::lf_tag_compare(&Tag::new(5, 2), &Tag::new(5, 1)), 1);
    assert_eq!(Tag::lf_tag_compare(&Tag::new(5, 2), &Tag::new(5, 2)), 0);
    assert_eq!(Tag::lf_tag_compare(&Tag::never_tag(), &Tag::forever_tag()), -1);
}

#[test]
fn compare_is_antisymmetric_and_total_on_samples() {
    let samples = [
        Tag::never_tag(),
        Tag::new(-5, 0),
        Tag::zero_tag(),
        Tag::new(0, 1),
        Tag::new(3, u32::MAX),
        Tag::new(4, 0),
        Tag::forever_tag(),
    ];
    for (i, a) in samples.iter().enumerate() {
        for (j, b) in samples.iter().enumerate() {
            let ab = Tag::lf_tag_compare(a, b);
            let ba = Tag::lf_tag_compare(b, a);
            assert_eq!(ab, -ba);
            assert_eq!(ab == 0, a == b);
            assert_eq!(ab, (i as i32 - j as i32).signum());
            for c in samples.iter() {
                if ab <= 0 && Tag::lf_tag_compare(b, c) <= 0 {
                    assert!(Tag::lf_tag_compare(a, c) <= 0);
                }
            }
        }
    }
}

#[test]
fn delay_by_a_missing_or_negative_interval_is_the_identity() {
    let tag = Tag::new(40, 2);
    assert_eq!(Tag::lf_delay_tag(&tag, None), tag);
    assert_eq!(Tag::lf_delay_tag(&tag, Some(-1)), tag);
    assert_eq!(Tag::lf_delay_tag(&tag, Some(i64::MIN)), tag);
    assert_eq!(Tag::lf_delay_tag(&Tag::forever_tag(), None), Tag::forever_tag());
}

#[test]
fn delay_leaves_never_alone() {
    assert_eq!(Tag::lf_delay_tag(&Tag::never_tag(), Some(0)), Tag::never_tag());
    assert_eq!(Tag::lf_delay_tag(&Tag::never_tag(), Some(10)), Tag::never_tag());
    assert_eq!(Tag::lf_delay_tag(&Tag::never_tag(), None), Tag::never_tag());
    assert_eq!(Tag::lf_delay_tag(&Tag::new(NEVER, 4), Some(10)), Tag::new(NEVER, 4));
}

#[test]
fn delay_by_zero_advances_the_microstep() {
    assert_eq!(Tag::lf_delay_tag(&Tag::new(40, 2), Some(0)), Tag::new(40, 3));
    assert_eq!(Tag::lf_delay_tag(&Tag::zero_tag(), Some(0)), Tag::new(0, 1));
}

#[test]
fn delay_by_zero_wraps_the_microstep_around() {
    assert_eq!(Tag::lf_delay_tag(&Tag::new(40, u32::MAX), Some(0)), Tag::new(40, 0));
}

#[test]
fn delay_by_a_positive_interval_advances_time_and_resets_the_microstep() {
    assert_eq!(Tag::lf_delay_tag(&Tag::new(40, 2), Some(5)), Tag::new(45, 0));
    assert_eq!(Tag::lf_delay_tag(&Tag::new(-40, 7), Some(5)), Tag::new(-35, 0));
}

#[test]
fn delay_saturates_to_forever() {
    assert_eq!(Tag::lf_delay_tag(&Tag::new(FOREVER - 3, 0), Some(10)), Tag::forever_tag());
    assert_eq!(Tag::lf_delay_tag(&Tag::new(FOREVER - 10, 0), Some(10)), Tag::forever_tag());
    assert_eq!(Tag::lf_delay_tag(&Tag::new(FOREVER - 11, 0), Some(10)), Tag::new(FOREVER - 1, 0));
    assert_eq!(Tag::lf_delay_tag(&Tag::new(FOREVER, 3), Some(0)), Tag::forever_tag());
    assert_eq!(Tag::lf_delay_tag(&Tag::zero_tag(), Some(FOREVER)), Tag::forever_tag());
}

#[test]
fn strict_delay_by_a_positive_interval_steps_back_one_nanosecond() {
    assert_eq!(Tag::lf_delay_strict(&Tag::new(10, 0), Some(5)), Tag::new(14, u32::MAX));
    assert_eq!(Tag::lf_delay_strict(&Tag::new(10, 7), Some(1)), Tag::new(10, u32::MAX));
    assert_eq!(Tag::lf_delay_strict(&Tag::new(-3, 0), Some(3)), Tag::new(-1, u32::MAX));
}

#[test]
fn strict_delay_by_zero_or_no_interval_is_the_plain_delay() {
    assert_eq!(Tag::lf_delay_strict(&Tag::new(10, 0), Some(0)), Tag::new(10, 1));
    assert_eq!(Tag::lf_delay_strict(&Tag::new(10, 4), None), Tag::new(10, 4));
    assert_eq!(Tag::lf_delay_strict(&Tag::new(10, 4), Some(NEVER)), Tag::new(10, 4));
}

#[test]
fn strict_delay_by_a_negative_interval_steps_back_from_the_tag_itself() {
    assert_eq!(Tag::lf_delay_strict(&Tag::new(10, 4), Some(-7)), Tag::new(9, u32::MAX));
}

#[test]
fn strict_delay_keeps_the_sentinels() {
    assert_eq!(Tag::lf_delay_strict(&Tag::never_tag(), Some(5)), Tag::never_tag());
    assert_eq!(Tag::lf_delay_strict(&Tag::new(FOREVER - 3, 0), Some(10)), Tag::forever_tag());
    assert_eq!(Tag::lf_delay_strict(&Tag::new(-5, 0), Some(FOREVER)), Tag::new(FOREVER - 5, 0));
    assert_eq!(Tag::lf_delay_strict(&Tag::zero_tag(), Some(FOREVER)), Tag::forever_tag());
}

#[test]
fn add_sums_both_fields() {
    assert_eq!(Tag::lf_tag_add(&Tag::new(10, 1), &Tag::new(5, 2)), Tag::new(15, 3));
    assert_eq!(Tag::lf_tag_add(&Tag::new(10, 1), &Tag::new(-15, 0)), Tag::new(-5, 1));
}

#[test]
fn add_zero_is_the_identity() {
    for a in [Tag::new(10, 1), Tag::new(-4, u32::MAX), Tag::never_tag(), Tag::forever_tag()] {
        assert_eq!(Tag::lf_tag_add(&a, &Tag::zero_tag()), a);
    }
}

#[test]
fn add_zero_normalises_a_tag_at_a_sentinel_time() {
    assert_eq!(Tag::lf_tag_add(&Tag::new(NEVER, 1), &Tag::zero_tag()), Tag::never_tag());
    assert_eq!(Tag::lf_tag_add(&Tag::new(FOREVER, 1), &Tag::zero_tag()), Tag::forever_tag());
}

#[test]
fn add_never_gives_never() {
    for a in [Tag::new(10, 1), Tag::zero_tag(), Tag::never_tag(), Tag::forever_tag()] {
        assert_eq!(Tag::lf_tag_add(&a, &Tag::never_tag()), Tag::never_tag());
        assert_eq!(Tag::lf_tag_add(&Tag::never_tag(), &a), Tag::never_tag());
    }
}

#[test]
fn add_forever_gives_forever_unless_the_other_is_never() {
    for a in [Tag::new(10, 1), Tag::zero_tag(), Tag::forever_tag()] {
        assert_eq!(Tag::lf_tag_add(&a, &Tag::forever_tag()), Tag::forever_tag());
        assert_eq!(Tag::lf_tag_add(&Tag::forever_tag(), &a), Tag::forever_tag());
    }
    assert_eq!(Tag::lf_tag_add(&Tag::new(FOREVER, 0), &Tag::new(1, 0)), Tag::forever_tag());
}

#[test]
fn add_saturates_on_overflow_and_underflow() {
    assert_eq!(Tag::lf_tag_add(&Tag::new(FOREVER - 1, 0), &Tag::new(5, 0)), Tag::forever_tag());
    assert_eq!(Tag::lf_tag_add(&Tag::new(NEVER + 1, 0), &Tag::new(-5, 0)), Tag::never_tag());
    assert_eq!(Tag::lf_tag_add(&Tag::new(1, u32::MAX), &Tag::new(1, 1)), Tag::forever_tag());
    assert_eq!(
        Tag::lf_tag_add(&Tag::new(NEVER + 1, u32::MAX), &Tag::new(-5, 1)),
        Tag::forever_tag()
    );
    assert_eq!(
        Tag::lf_tag_add(&Tag::new(FOREVER - 6, 0), &Tag::new(5, 0)),
        Tag::new(FOREVER - 1, 0)
    );
}
