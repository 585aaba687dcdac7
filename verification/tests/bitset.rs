use tome::bitset::LevelBitset;

#[test]
fn next_and_prev_within_a_word() {
    let mut bs = LevelBitset::new(64);
    bs.set(3);
    bs.set(10);
    assert_eq!(bs.next_set_from(0), Some(3));
    assert_eq!(bs.next_set_from(4), Some(10));
    assert_eq!(bs.next_set_from(11), None);
    assert_eq!(bs.prev_set_from(63), Some(10));
    assert_eq!(bs.prev_set_from(9), Some(3));
    assert_eq!(bs.prev_set_from(2), None);
}

#[test]
fn crosses_word_boundaries() {
    // 200 levels spans 4 words; the summary layer is exercised.
    let mut bs = LevelBitset::new(200);
    bs.set(1);
    bs.set(65); // second word
    bs.set(130); // third word
    assert_eq!(bs.next_set_from(2), Some(65));
    assert_eq!(bs.next_set_from(66), Some(130));
    assert_eq!(bs.next_set_from(131), None);
    assert_eq!(bs.prev_set_from(129), Some(65));
    assert_eq!(bs.prev_set_from(64), Some(1));
}

#[test]
fn set_then_clear_is_gone() {
    let mut bs = LevelBitset::new(128);
    bs.set(70);
    assert_eq!(bs.next_set_from(0), Some(70));
    bs.clear(70);
    assert_eq!(bs.next_set_from(0), None);
    assert_eq!(bs.prev_set_from(127), None);
}

#[test]
fn exact_position_is_inclusive() {
    let mut bs = LevelBitset::new(128);
    bs.set(42);
    assert_eq!(bs.next_set_from(42), Some(42));
    assert_eq!(bs.prev_set_from(42), Some(42));
}

/// Setting or clearing twice is the same as once, and clearing one of two
/// levels in a word keeps the word in the summary.
#[test]
fn marks_are_idempotent() {
    let mut bs = LevelBitset::new(256);
    bs.set(130);
    bs.set(130);
    bs.set(131);
    assert_eq!(bs.next_set_from(0), Some(130));
    bs.clear(130);
    bs.clear(130);
    assert_eq!(bs.next_set_from(0), Some(131));
    assert_eq!(bs.prev_set_from(255), Some(131));
    bs.clear(131);
    assert_eq!(bs.next_set_from(0), None);
}

/// Searching from beyond the last level finds nothing upwards, and the last
/// occupied level downwards.
#[test]
fn searches_start_beyond_the_end() {
    let mut bs = LevelBitset::new(100);
    assert_eq!(bs.prev_set_from(100), None);
    bs.set(99);
    assert_eq!(bs.next_set_from(99), Some(99));
    assert_eq!(bs.next_set_from(100), None);
    assert_eq!(bs.next_set_from(usize::MAX), None);
    assert_eq!(bs.prev_set_from(100), Some(99));
    assert_eq!(bs.prev_set_from(usize::MAX), Some(99));
    let mut bs = LevelBitset::new(64);
    bs.set(3);
    assert_eq!(bs.prev_set_from(64), Some(3));
}

/// More levels than one summary word covers.
#[test]
fn wide_bitmaps_use_several_summary_words() {
    let mut bs = LevelBitset::new(20_000);
    bs.set(5);
    bs.set(4_095);
    bs.set(4_096);
    bs.set(19_999);
    assert_eq!(bs.next_set_from(6), Some(4_095));
    assert_eq!(bs.next_set_from(4_096), Some(4_096));
    assert_eq!(bs.next_set_from(4_097), Some(19_999));
    assert_eq!(bs.prev_set_from(19_998), Some(4_096));
    assert_eq!(bs.prev_set_from(4_094), Some(5));
    assert_eq!(bs.prev_set_from(4), None);
}
