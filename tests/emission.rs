use teleinfo_sim::meter::{field_name_bytes, field_width_of, Meter, FIELD_COUNT};

const TICK0: &[u8] = b"\x02\nBASE 000000000 K\r\nHCHC 000001111 J\r\nHCHP 000002222 [\r\nIINST 120 Z\r\nPAPP 16254 3\r\x03";
const TICK1: &[u8] = b"\x02\nBASE 000000001 L\r\nHCHC 000001112 K\r\nHCHP 000002223 \\\r\nIINST 121 [\r\nPAPP 16255 4\r\x03";

#[test]
fn fields_in_frame_order() {
    let names: Vec<Vec<u8>> = (0..FIELD_COUNT).map(field_name_bytes).collect();
    assert_eq!(
        names,
        vec![b"BASE".to_vec(), b"HCHC".to_vec(), b"HCHP".to_vec(), b"IINST".to_vec(), b"PAPP".to_vec()]
    );
    let widths: Vec<usize> = (0..FIELD_COUNT).map(field_width_of).collect();
    assert_eq!(widths, vec![9, 9, 9, 3, 5]);
}

#[test]
fn starting_values() {
    let m = Meter::new();
    let values: Vec<u64> = (0..FIELD_COUNT).map(|i| m.value(i)).collect();
    assert_eq!(values, vec![0, 1111, 2222, 120, 16254]);
}

#[test]
fn first_two_ticks() {
    let mut m = Meter::new();
    assert_eq!(m.tick(), TICK0.to_vec());
    assert_eq!(m.tick(), TICK1.to_vec());
}

#[test]
fn frame_structure() {
    let mut m = Meter::new();
    for _ in 0..3 {
        let f = m.tick();
        assert_eq!(f[0], 0x02);
        assert_eq!(*f.last().unwrap(), 0x03);
        assert_eq!(f.iter().filter(|&&b| b == 0x0A).count(), 5);
        assert_eq!(f.iter().filter(|&&b| b == 0x0D).count(), 5);
        let groups: Vec<&[u8]> = f[1..f.len() - 1].split(|&b| b == 0x0D).filter(|g| !g.is_empty()).collect();
        assert_eq!(groups.len(), 5);
        let expected = [&b"BASE "[..], b"HCHC ", b"HCHP ", b"IINST ", b"PAPP "];
        for (g, name) in groups.iter().zip(expected.iter()) {
            assert_eq!(g[0], 0x0A);
            assert!(g[1..].starts_with(name));
        }
    }
}

#[test]
fn counters_advance_by_one_per_tick() {
    let mut m = Meter::new();
    let start = [0u64, 1111, 2222, 120, 16254];
    for n in 0..25u64 {
        for i in 0..FIELD_COUNT {
            assert_eq!(m.value(i), start[i] + n);
        }
        m.tick();
    }
}

#[test]
fn advance_without_frame() {
    let mut m = Meter::new();
    m.advance();
    assert_eq!(m.frame(), TICK1.to_vec());
}

#[test]
fn frame_twice_without_advancing() {
    let m = Meter::new();
    assert_eq!(m.frame(), m.frame());
    assert_eq!(m.frame(), TICK0.to_vec());
}

#[test]
fn frame_after_many_ticks() {
    let mut m = Meter::new();
    for _ in 0..1000 {
        m.advance();
    }
    let f = m.frame();
    let text = String::from_utf8(f).unwrap();
    assert!(text.contains("\nBASE 000001000 "));
    assert!(text.contains("\nIINST 1120 "));
    assert!(text.contains("\nPAPP 17254 "));
}
