use async_ecs::{bit_average, bit_average_u32, bit_average_u64};

fn next_even_parity_u32(mut n: u32) -> Option<u32> {
    if n == u32::max_value() {
        return None;
    }
    n += 1;
    while n.count_ones() & 1 != 0 {
        if n == u32::max_value() {
            return None;
        }
        n += 1;
    }
    Some(n)
}

fn next_odd_parity_u32(mut n: u32) -> Option<u32> {
    if n == u32::max_value() {
        return None;
    }
    n += 1;
    while n.count_ones() & 1 == 0 {
        if n == u32::max_value() {
            return None;
        }
        n += 1;
    }
    Some(n)
}

fn next_even_parity_u64(mut n: u64) -> Option<u64> {
    if n == u64::max_value() {
        return None;
    }
    n += 1;
    while n.count_ones() & 1 != 0 {
        if n == u64::max_value() {
            return None;
        }
        n += 1;
    }
    Some(n)
}

fn next_odd_parity_u64(mut n: u64) -> Option<u64> {
    if n == u64::max_value() {
        return None;
    }
    n += 1;
    while n.count_ones() & 1 == 0 {
        if n == u64::max_value() {
            return None;
        }
        n += 1;
    }
    Some(n)
}

#[test]
fn parity_0_bit_average_u32() {
    let steps = 1000;
    for i in 0..steps {
        let pos = i * (u32::max_value() / steps);
        let mut cur = pos;
        let mut taken = 0;
        while taken < steps as usize {
            match next_even_parity_u32(cur) {
                Some(i) => {
                    let mask = (1u32 << bit_average_u32(i).unwrap_or(31)) - 1;
                    assert_eq!((i & mask).count_ones(), (i & !mask).count_ones(), "{:x}", i);
                    cur = i;
                },
                None => break,
            }
            taken += 1;
        }
    }
}

#[test]
fn parity_1_bit_average_u32() {
    let steps = 1000;
    for i in 0..steps {
        let pos = i * (u32::max_value() / steps);
        let mut cur = pos;
        let mut taken = 0;
        while taken < steps as usize {
            match next_odd_parity_u32(cur) {
                Some(i) => {
                    let mask = (1u32 << bit_average_u32(i).unwrap_or(31)) - 1;
                    let a = (i & mask).count_ones();
                    let b = (i & !mask).count_ones();
                    if a < b {
                        assert_eq!(a + 1, b, "{:x}", i);
                    } else if b < a {
                        assert_eq!(a, b + 1, "{:x}", i);
                    } else {
                        panic!("Odd parity shouldn't split in exactly half");
                    }
                    cur = i;
                },
                None => break,
            }
            taken += 1;
        }
    }
}

#[test]
fn empty_bit_average_u32() {
    assert_eq!(None, bit_average_u32(0));
}

#[test]
fn singleton_bit_average_u32() {
    for i in 0..32 {
        assert_eq!(None, bit_average_u32(1 << i), "{:x}", i);
    }
}

#[test]
fn parity_0_bit_average_u64() {
    let steps = 1000;
    for i in 0..steps {
        let pos = i * (u64::max_value() / steps);
        let mut cur = pos;
        let mut taken = 0;
        while taken < steps as usize {
            match next_even_parity_u64(cur) {
                Some(i) => {
                    let mask = (1u64 << bit_average_u64(i).unwrap_or(63)) - 1;
                    assert_eq!((i & mask).count_ones(), (i & !mask).count_ones(), "{:x}", i);
                    cur = i;
                },
                None => break,
            }
            taken += 1;
        }
    }
}

#[test]
fn parity_1_bit_average_u64() {
    let steps = 1000;
    for i in 0..steps {
        let pos = i * (u64::max_value() / steps);
        let mut cur = pos;
        let mut taken = 0;
        while taken < steps as usize {
            match next_odd_parity_u64(cur) {
                Some(i) => {
                    let mask = (1u64 << bit_average_u64(i).unwrap_or(63)) - 1;
                    let a = (i & mask).count_ones();
                    let b = (i & !mask).count_ones();
                    if a < b {
                        assert_eq!(a + 1, b, "{:x}", i);
                    } else if b < a {
                        assert_eq!(a, b + 1, "{:x}", i);
                    } else {
                        panic!("Odd parity shouldn't split in exactly half");
                    }
                    cur = i;
                },
                None => break,
            }
            taken += 1;
        }
    }
}

#[test]
fn empty_bit_average_u64() {
    assert_eq!(None, bit_average_u64(0));
}

#[test]
fn singleton_bit_average_u64() {
    for i in 0..64 {
        assert_eq!(None, bit_average_u64(1 << i), "{:x}", i);
    }
}

#[test]
fn bit_average_agree_u32_u64() {
    let steps = 1000;
    for i in 0..steps {
        let pos = i * (u32::max_value() / steps);
        for i in pos..steps {
            assert_eq!(
                bit_average_u32(i),
                bit_average_u64(i as u64).map(|n| n as u32),
                "{:x}",
                i
            );
        }
    }
}

#[test]
fn specific_values() {
    assert_eq!(Some(4), bit_average_u32(0b10110));
    assert_eq!(Some(5), bit_average_u32(0b100010));
    assert_eq!(None, bit_average_u32(0));
    assert_eq!(None, bit_average_u32(1));

    assert_eq!(Some(4), bit_average_u64(0b10110));
    assert_eq!(Some(5), bit_average_u64(0b100010));
    assert_eq!(None, bit_average_u64(0));
    assert_eq!(None, bit_average_u64(1));
}

#[test]
fn bit_average_word_sized_agrees() {
    assert_eq!(Some(4), bit_average(0b10110));
    assert_eq!(None, bit_average(0));
    assert_eq!(None, bit_average(1));
    assert_eq!(
        bit_average(0xF0F0).map(|k| k as u64),
        bit_average_u64(0xF0F0)
    );
}
