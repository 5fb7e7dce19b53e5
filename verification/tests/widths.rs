use bit_combi_iter::{BitCombinations, UIntExt};

fn count_u16(start: u16) -> usize {
    let mut c = BitCombinations::new(start);
    let mut n = 0usize;
    while c.next().is_some() {
        n += 1;
    }
    n
}

#[test]
fn step_returns_the_next_lower_word() {
    assert_eq!(0b10010u8.next_combination(), Some(0b10001));
    assert_eq!(0b10001u8.next_combination(), Some(0b01100));
    assert_eq!(0b0110_0000u8.next_combination(), Some(0b0101_0000));
    assert_eq!(0b1011u8.next_combination(), Some(0b0111));
}

#[test]
fn step_differs_from_its_argument() {
    for a in 0u8..=255 {
        assert_ne!(a.next_combination(), Some(a));
    }
}

#[test]
fn step_matches_a_search_on_every_u8() {
    for a in 0u8..=255 {
        let mut want = None;
        let mut m = a;
        while m > 0 {
            m -= 1;
            if m.count_ones() == a.count_ones() {
                want = Some(m);
                break;
            }
        }
        assert_eq!(a.next_combination(), want, "a={:b}", a);
    }
}

#[test]
fn step_matches_a_search_on_u16_samples() {
    for a in (0u16..=u16::MAX).step_by(7) {
        let mut want = None;
        let mut m = a;
        while m > 0 {
            m -= 1;
            if m.count_ones() == a.count_ones() {
                want = Some(m);
                break;
            }
        }
        assert_eq!(a.next_combination(), want, "a={:b}", a);
    }
}

#[test]
fn zero_has_no_predecessor_in_any_width() {
    assert_eq!(0u8.next_combination(), None);
    assert_eq!(0u16.next_combination(), None);
    assert_eq!(0u32.next_combination(), None);
    assert_eq!(0u64.next_combination(), None);
    assert_eq!(0u128.next_combination(), None);
}

#[test]
fn all_ones_has_no_predecessor_in_any_width() {
    assert_eq!(u8::MAX.next_combination(), None);
    assert_eq!(u16::MAX.next_combination(), None);
    assert_eq!(u32::MAX.next_combination(), None);
    assert_eq!(u64::MAX.next_combination(), None);
    assert_eq!(u128::MAX.next_combination(), None);
}

#[test]
fn all_ones_but_the_top_bit_has_no_predecessor() {
    assert_eq!((u8::MAX >> 1).next_combination(), None);
    assert_eq!((u16::MAX >> 1).next_combination(), None);
    assert_eq!((u32::MAX >> 1).next_combination(), None);
    assert_eq!((u64::MAX >> 1).next_combination(), None);
    assert_eq!((u128::MAX >> 1).next_combination(), None);
}

#[test]
fn low_ones_have_no_predecessor() {
    assert_eq!(0b1u8.next_combination(), None);
    assert_eq!(0b111u16.next_combination(), None);
    assert_eq!(0xffffu32.next_combination(), None);
    assert_eq!(0xffff_ffffu64.next_combination(), None);
    assert_eq!(0xffff_ffff_ffff_ffffu128.next_combination(), None);
}

#[test]
fn top_bit_steps_down_one_place() {
    assert_eq!((1u8 << 7).next_combination(), Some(1 << 6));
    assert_eq!((1u16 << 15).next_combination(), Some(1 << 14));
    assert_eq!((1u32 << 31).next_combination(), Some(1 << 30));
    assert_eq!((1u64 << 63).next_combination(), Some(1 << 62));
    assert_eq!((1u128 << 127).next_combination(), Some(1 << 126));
}

#[test]
fn top_ones_step_in_wide_words() {
    assert_eq!(
        (0b111u32 << 29).next_combination(),
        Some((0b11u32 << 30) | (1 << 28))
    );
    assert_eq!(
        (0b111u64 << 61).next_combination(),
        Some((0b11u64 << 62) | (1 << 60))
    );
    assert_eq!(
        (0b111u128 << 125).next_combination(),
        Some((0b11u128 << 126) | (1 << 124))
    );
}

#[test]
fn trailing_ones_move_up_below_the_moved_bit() {
    // ...1 0000 0111 -> ...0 1111 0000
    assert_eq!(0b1_0000_0111u16.next_combination(), Some(0b0_1111_0000));
    assert_eq!(
        ((1u128 << 100) | 0b11).next_combination(),
        Some(0b111u128 << 97)
    );
    assert_eq!(
        ((1u64 << 63) | (u64::MAX >> 2)).next_combination(),
        Some(u64::MAX >> 1)
    );
}

#[test]
fn single_bit_descends_to_the_lowest_place() {
    let mut c = BitCombinations::new(1u128 << 127);
    for place in (0..127).rev() {
        assert_eq!(c.next(), Some(1u128 << place));
    }
    assert_eq!(c.next(), None);
    assert_eq!(c.peek(), None);
}

#[test]
fn u16_run_has_binomial_length() {
    // 16 choose 2 words have two ones; the start is the largest of them.
    assert_eq!(count_u16(0b11 << 14), 119);
    // 16 choose 3.
    assert_eq!(count_u16(0b111 << 13), 559);
    // 16 choose 15.
    assert_eq!(count_u16(u16::MAX - 1), 15);
}

#[test]
fn five_bit_words_with_three_ones() {
    let mut c = BitCombinations::new(0b11100u8);
    assert_eq!(c.next().unwrap(), 0b11010);
    assert_eq!(c.next().unwrap(), 0b11001);
    assert_eq!(c.next().unwrap(), 0b10110);
    assert_eq!(c.next().unwrap(), 0b10101);
    assert_eq!(c.next().unwrap(), 0b10011);
    assert_eq!(c.next().unwrap(), 0b01110);
}
