use disk_tree::Size;

#[test]
fn should_add() {
    let a: Size = Size(136);
    let b: Size = Size(164);
    assert_eq!(a + b, Size(300));
}

#[test]
fn sould_display() {
    let a = Size(680);
    assert_eq!(a.format(), "680 B");
    let a = Size(1027);
    assert_eq!(a.format(), "1.0 KB");
    let a = Size(5879);
    assert_eq!(a.format(), "5.7 KB");
    let a = Size(4444444);
    assert_eq!(a.format(), "4.2 MB");
    let a = Size(5007009000);
    assert_eq!(a.format(), "4.7 GB");
    let a = Size(2411724);
    assert_eq!(a.format(), "2.3 MB")
}

#[test]
fn new_and_bytes_agree() {
    assert_eq!(Size::new(0).bytes(), 0);
    assert_eq!(Size::new(u64::MAX).bytes(), u64::MAX);
    assert_eq!(Size::new(300), Size(300));
}

#[test]
fn addition_is_commutative_and_associative() {
    let (a, b, c) = (Size::new(7), Size::new(1 << 40), Size::new(12345));
    assert_eq!(a + b, b + a);
    assert_eq!((a + b) + c, a + (b + c));
    assert_eq!(Size::new(0) + a, a);
}

#[test]
fn sizes_are_ordered_by_their_bytes() {
    assert!(Size::new(1) < Size::new(2));
    assert!(Size::new(1024) > Size::new(1023));
    assert_eq!(Size::new(5).max(Size::new(9)), Size::new(9));
}

#[test]
fn units_start_at_their_power_of_1024() {
    assert_eq!(Size::new(0).format(), "0 B");
    assert_eq!(Size::new(9).format(), "9 B");
    assert_eq!(Size::new(10).format(), "10 B");
    assert_eq!(Size::new(1023).format(), "1023 B");
    assert_eq!(Size::new(1024).format(), "1.0 KB");
    assert_eq!(Size::new(1024 * 1024 - 1).format(), "1024.0 KB");
    assert_eq!(Size::new(1024 * 1024).format(), "1.0 MB");
    assert_eq!(Size::new(1024 * 1024 * 1024 - 1).format(), "1024.0 MB");
    assert_eq!(Size::new(1024 * 1024 * 1024).format(), "1.0 GB");
    assert_eq!(Size::new(u64::MAX).format(), "17179869184.0 GB");
}

#[test]
fn halves_round_to_the_even_tenth() {
    // 1280 / 1024 = 1.25 and 1536 / 1024 = 1.5 exactly
    assert_eq!(Size::new(1280).format(), "1.2 KB");
    assert_eq!(Size::new(1024 + 256 + 512).format(), "1.8 KB");
    assert_eq!(Size::new(1536).format(), "1.5 KB");
    assert_eq!(Size::new(1024 + 51).format(), "1.0 KB");
    assert_eq!(Size::new(1024 + 52).format(), "1.1 KB");
}

fn float_text(bytes: u64) -> String {
    let value = bytes as f64;
    if value < 1024.0 {
        format!("{} B", bytes)
    } else if value < 1024.0 * 1024.0 {
        format!("{:.1} KB", value / 1024.0)
    } else if value < 1024.0 * 1024.0 * 1024.0 {
        format!("{:.1} MB", value / 1024.0 / 1024.0)
    } else {
        format!("{:.1} GB", value / 1024.0 / 1024.0 / 1024.0)
    }
}

#[test]
fn text_agrees_with_floating_point_formatting() {
    let mut bytes: u64 = 0;
    while bytes < 300_000 {
        assert_eq!(Size::new(bytes).format(), float_text(bytes), "{}", bytes);
        bytes += 1;
    }
    let mut bytes: u64 = 1;
    let mut step: u64 = 1;
    while bytes < (1 << 52) {
        for delta in 0..64 {
            let n = bytes + delta * 131_071;
            assert_eq!(Size::new(n).format(), float_text(n), "{}", n);
        }
        bytes = bytes + step;
        step = step * 3 / 2 + 1;
    }
    for shift in 10..52 {
        let base: u64 = 1 << shift;
        for n in [base - 1, base, base + 1, base + base / 4, base + base / 2, base + base / 8] {
            assert_eq!(Size::new(n).format(), float_text(n), "{}", n);
        }
    }
}
