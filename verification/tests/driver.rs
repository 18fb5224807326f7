use led_cube::shiftreg::{Driver, DriverError, Line, Pins, Signal, MAX_BITS};

fn idle() -> Pins {
    Pins { data: false, clock: false, latch: false }
}

fn driver_of(bits: usize) -> Driver {
    match Driver::new(idle(), bits) {
        Ok(driver) => driver,
        Err(e) => panic!("a chain of {} cells was refused: {:?}", bits, e),
    }
}

fn cells_of(driver: &Driver) -> Vec<bool> {
    (0..driver.active_length()).map(|i| driver.get(i).unwrap()).collect()
}

fn write(line: Line, high: bool) -> Signal {
    Signal { line, high }
}

#[test]
fn new_starts_with_every_cell_off() {
    for bits in [0usize, 1, 30, 31, 32, 1000, 2047] {
        let driver = driver_of(bits);
        assert_eq!(driver.active_length(), bits);
        assert_eq!(cells_of(&driver), vec![false; bits]);
    }
}

#[test]
fn new_accepts_every_length_below_capacity() {
    for bits in 0..MAX_BITS {
        assert!(Driver::new(idle(), bits).is_ok(), "{} cells", bits);
    }
}

#[test]
fn new_refuses_capacity_and_beyond() {
    assert_eq!(MAX_BITS, 2048);
    for bits in [2048usize, 2049, 4096, usize::MAX] {
        assert_eq!(Driver::new(idle(), bits).err(), Some(DriverError::CapacityExceeded));
    }
    assert!(Driver::new(idle(), 2047).is_ok());
}

#[test]
fn new_keeps_the_line_levels_it_was_given() {
    let pins = Pins { data: true, clock: false, latch: true };
    let driver = Driver::new(pins, 8).unwrap();
    assert_eq!(driver.pins(), pins);
}

#[test]
fn set_then_get_returns_the_stored_bit() {
    let mut driver = driver_of(30);
    for i in 0..30 {
        assert_eq!(driver.set(i, true), Ok(()));
        assert_eq!(driver.get(i), Ok(true));
        assert_eq!(driver.set(i, false), Ok(()));
        assert_eq!(driver.get(i), Ok(false));
    }
}

#[test]
fn set_changes_one_cell_only() {
    let mut driver = driver_of(30);
    driver.set(7, true).unwrap();
    driver.set(29, true).unwrap();
    let mut expected = vec![false; 30];
    expected[7] = true;
    expected[29] = true;
    assert_eq!(cells_of(&driver), expected);
}

#[test]
fn set_beyond_the_chain_is_refused_and_changes_nothing() {
    let mut driver = driver_of(30);
    driver.set(3, true).unwrap();
    let before = cells_of(&driver);
    let wire_before = driver.update().unwrap();
    for index in [30usize, 31, 2047, 2048, usize::MAX] {
        assert_eq!(driver.set(index, true), Err(DriverError::IndexOutOfRange));
        assert_eq!(driver.set(index, false), Err(DriverError::IndexOutOfRange));
    }
    assert_eq!(cells_of(&driver), before);
    assert_eq!(driver.update().unwrap(), wire_before);
}

#[test]
fn set_on_an_empty_chain_is_refused() {
    let mut driver = driver_of(0);
    assert_eq!(driver.set(0, true), Err(DriverError::IndexOutOfRange));
}

#[test]
fn get_beyond_the_chain_is_refused() {
    let driver = driver_of(30);
    assert_eq!(driver.get(29), Ok(false));
    assert_eq!(driver.get(30), Err(DriverError::IndexOutOfRange));
    assert_eq!(driver.get(usize::MAX), Err(DriverError::IndexOutOfRange));
}

#[test]
fn set_does_not_touch_the_lines() {
    let pins = Pins { data: true, clock: true, latch: false };
    let mut driver = Driver::new(pins, 4).unwrap();
    driver.set(2, true).unwrap();
    assert_eq!(driver.pins(), pins);
}

#[test]
fn update_sends_one_latch_cycle_per_cell_in_ascending_order() {
    let mut driver = driver_of(3);
    driver.set(0, true).unwrap();
    driver.set(2, true).unwrap();
    let sent = driver.update().unwrap();
    let expected = vec![
        write(Line::Latch, false),
        write(Line::Data, true),
        write(Line::Clock, true),
        write(Line::Clock, false),
        write(Line::Latch, true),
        write(Line::Latch, false),
        write(Line::Data, false),
        write(Line::Clock, true),
        write(Line::Clock, false),
        write(Line::Latch, true),
        write(Line::Latch, false),
        write(Line::Data, true),
        write(Line::Clock, true),
        write(Line::Clock, false),
        write(Line::Latch, true),
    ];
    assert_eq!(sent, expected);
}

#[test]
fn update_sends_five_writes_per_cell() {
    for bits in [0usize, 1, 2, 30, 2047] {
        let mut driver = driver_of(bits);
        assert_eq!(driver.update().unwrap().len(), 5 * bits);
    }
}

#[test]
fn update_of_an_empty_chain_sends_nothing_and_leaves_the_lines() {
    let pins = Pins { data: true, clock: true, latch: false };
    let mut driver = Driver::new(pins, 0).unwrap();
    assert_eq!(driver.update().unwrap(), vec![]);
    assert_eq!(driver.pins(), pins);
}

#[test]
fn update_shows_a_stored_bit_on_the_data_line() {
    let mut driver = driver_of(30);
    driver.set(11, true).unwrap();
    let sent = driver.update().unwrap();
    for cell in 0..30 {
        assert_eq!(sent[5 * cell + 1], write(Line::Data, cell == 11));
    }
}

#[test]
fn update_keeps_the_buffer() {
    let mut driver = driver_of(30);
    driver.set(5, true).unwrap();
    let before = cells_of(&driver);
    let first = driver.update().unwrap();
    assert_eq!(cells_of(&driver), before);
    assert_eq!(driver.update().unwrap(), first);
}

#[test]
fn update_leaves_clock_low_latch_high_and_the_last_bit_on_data() {
    let mut driver = Driver::new(Pins { data: false, clock: true, latch: false }, 3).unwrap();
    driver.set(2, true).unwrap();
    driver.update().unwrap();
    assert_eq!(driver.pins(), Pins { data: true, clock: false, latch: true });
    driver.set(2, false).unwrap();
    driver.update().unwrap();
    assert_eq!(driver.pins(), Pins { data: false, clock: false, latch: true });
}

#[test]
fn errors_describe_themselves() {
    assert_eq!(DriverError::CapacityExceeded.message(), "bits exceed MAX_BITS in shifregister");
    assert_eq!(DriverError::IndexOutOfRange.message(), "index out of range");
}
