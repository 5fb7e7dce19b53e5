use bit_combi_iter::BitCombinations;

fn run(start: u8) -> Vec<u8> {
    let mut c = BitCombinations::new(start);
    let mut out = Vec::new();
    while let Some(v) = c.next() {
        out.push(v);
    }
    out
}

#[test]
fn example_two_ones() {
    let want = vec![
        0b00010010u8,
        0b00010001,
        0b00001100,
        0b00001010,
        0b00001001,
        0b00000110,
        0b00000101,
        0b00000011,
    ];
    assert_eq!(run(0b00010100), want);
}

#[test]
fn example_top_bit() {
    let want = vec![
        0b01000000u8,
        0b00100000,
        0b00010000,
        0b00001000,
        0b00000100,
        0b00000010,
        0b00000001,
    ];
    assert_eq!(run(0b10000000), want);
}

#[test]
fn example_all_ones() {
    let mut c = BitCombinations::new(0b11111111u8);
    assert_eq!(c.next(), None);
}

#[test]
fn population_count_is_kept() {
    for start in 1u8..=255 {
        for v in run(start) {
            assert_eq!(v.count_ones(), start.count_ones());
        }
    }
}

#[test]
fn values_strictly_descend() {
    for start in 0u8..=255 {
        let mut last = start;
        for v in run(start) {
            assert!(v < last);
            last = v;
        }
    }
}

#[test]
fn nothing_is_left_out() {
    for start in 0u8..=255 {
        let want: Vec<u8> = (0..start)
            .rev()
            .filter(|m| m.count_ones() == start.count_ones())
            .collect();
        assert_eq!(run(start), want, "start={:b}", start);
    }
}

#[test]
fn exhausted_stays_exhausted() {
    for start in [0u8, 1, 0b0110, 0b1000_0000, 0xff] {
        let mut c = BitCombinations::new(start);
        while c.next().is_some() {}
        for _ in 0..5 {
            assert_eq!(c.next(), None);
            assert_eq!(c.peek(), None);
        }
    }
}

#[test]
fn peek_reports_what_next_returned() {
    for start in 0u8..=255 {
        let mut c = BitCombinations::new(start);
        if start == 0 {
            assert_eq!(c.peek(), None);
        } else {
            assert_eq!(c.peek(), Some(start));
        }
        loop {
            let v = c.next();
            assert_eq!(c.peek(), v);
            assert_eq!(c.peek(), c.peek());
            if v.is_none() {
                break;
            }
        }
    }
}

#[test]
fn peek_does_not_advance() {
    let mut c = BitCombinations::new(0b11100u8);
    let u = c.next();
    assert_eq!(c.peek(), u);
    assert_eq!(c.peek(), c.peek());
    assert_eq!(c.next(), Some(0b11001));
}

#[test]
fn new_starts_at_the_given_word() {
    let u = 0b11100u8;
    let c = BitCombinations::new(u);
    assert_eq!(c.peek().unwrap(), u);
}

#[test]
fn zero_start_in_wide_words() {
    let mut c = BitCombinations::new(0u32);
    assert_eq!(c.peek(), None);
    assert_eq!(c.next(), None);
    let mut d = BitCombinations::new(0u128);
    assert_eq!(d.peek(), None);
    assert_eq!(d.next(), None);
}

#[test]
fn all_ones_start_in_wide_words() {
    let mut c = BitCombinations::new(u64::MAX);
    assert_eq!(c.peek(), Some(u64::MAX));
    assert_eq!(c.next(), None);
    assert_eq!(c.peek(), None);
    let mut d = BitCombinations::new(u128::MAX);
    assert_eq!(d.peek(), Some(u128::MAX));
    assert_eq!(d.next(), None);
}

#[test]
fn a_copy_keeps_its_own_place() {
    let mut c = BitCombinations::new(0b1100u8);
    let mut d = c;
    assert_eq!(c.next(), Some(0b1010));
    assert_eq!(c.next(), Some(0b1001));
    assert_eq!(d.next(), Some(0b1010));
    let mut e = d.clone();
    assert_eq!(e.next(), Some(0b1001));
    assert_eq!(d.peek(), Some(0b1010));
}
