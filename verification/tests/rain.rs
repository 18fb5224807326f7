use led_cube::cubes::snake::{Cube, RAIN_SEED};
use led_cube::shiftreg::{Driver, Line, Pins, Signal};
use led_cube::timeline::Step;
use rand::{RngCore, SeedableRng};
use rand_pcg::Pcg64;

fn chain(bits: usize) -> Driver {
    Driver::new(Pins { data: false, clock: false, latch: false }, bits).unwrap()
}

fn cells(driver: &Driver) -> Vec<bool> {
    (0..driver.active_length()).map(|i| driver.get(i).unwrap()).collect()
}

/// The data bits of every frame of a timeline, and the number of waits.
fn frames(steps: &[Step], bits: usize) -> (Vec<Vec<bool>>, usize) {
    let data: Vec<bool> = steps
        .iter()
        .filter_map(|step| match step {
            Step::Drive(Signal { line: Line::Data, high }) => Some(*high),
            _ => None,
        })
        .collect();
    let waits = steps.iter().filter(|step| matches!(step, Step::Wait(_))).count();
    let split = if bits == 0 {
        Vec::new()
    } else {
        data.chunks(bits).map(|c| c.to_vec()).collect()
    };
    (split, waits)
}

/// Rain frames as successive draws from one generator give them.
fn rain_by_hand(seed: [u8; 32], edge: usize, bits: usize, loops: usize) -> Vec<Vec<bool>> {
    let mut board = vec![false; bits];
    for cell in edge * edge..edge * edge + edge {
        board[cell] = true;
    }
    let mut rng = Pcg64::from_seed(seed);
    let mut word = rng.next_u32();
    let mut shown = Vec::new();
    for _ in 0..loops {
        for bit in 0..edge * edge {
            if bit % 32 == 0 {
                word = rng.next_u32();
            }
            let index = bit % 32;
            board[index] = (1u32 << index) & word != 0;
        }
        shown.push(board.clone());
    }
    shown
}

#[test]
fn rain_seed_is_forty_two_throughout() {
    assert_eq!(RAIN_SEED, [42u8; 32]);
}

#[test]
fn random_rain_is_the_same_on_every_run() {
    let cube = Cube { edge_length: 5, tick_ms: 100 };
    let mut first = chain(30);
    let mut second = chain(30);
    let one = cube.effect_random_rain(&mut first, 12);
    let two = cube.effect_random_rain(&mut second, 12);
    assert_eq!(one, two);
    assert_eq!(cells(&first), cells(&second));
}

#[test]
fn random_rain_shows_the_bits_of_successive_generator_words() {
    let cube = Cube { edge_length: 5, tick_ms: 100 };
    let mut driver = chain(30);
    let steps = cube.effect_random_rain(&mut driver, 6);
    let (shown, waits) = frames(&steps, 30);
    assert_eq!(waits, 6);
    assert_eq!(shown.len(), 8);
    assert_eq!(shown[0], vec![true; 30]);
    let expected = rain_by_hand([42u8; 32], 5, 30, 6);
    assert_eq!(shown[2..], expected[..]);
    assert_eq!(cells(&driver), expected[5]);
}

#[test]
fn random_rain_waits_after_every_frame() {
    let cube = Cube { edge_length: 5, tick_ms: 75 };
    let mut driver = chain(30);
    let steps = cube.effect_random_rain(&mut driver, 3);
    assert_eq!(steps.len(), 5 * 150 + 3);
    for l in 0..3 {
        assert_eq!(steps[2 * 150 + 151 * l + 150], Step::Wait(75));
    }
}

#[test]
fn random_rain_touches_the_first_thirty_two_cells_only() {
    let cube = Cube { edge_length: 6, tick_ms: 10 };
    let mut driver = chain(50);
    driver.set(45, true).unwrap();
    let steps = cube.effect_random_rain(&mut driver, 5);
    let (shown, _) = frames(&steps, 50);
    for frame in &shown[2..] {
        for cell in 32..36 {
            assert!(!frame[cell], "grid cell {}", cell);
        }
        for cell in 36..42 {
            assert!(frame[cell], "marker cell {}", cell);
        }
        assert!(!frame[44]);
        assert!(frame[45]);
    }
}

#[test]
fn random_rain_draws_a_word_for_every_thirty_two_cells_begun() {
    let cube = Cube { edge_length: 6, tick_ms: 10 };
    let mut driver = chain(42);
    let steps = cube.effect_random_rain(&mut driver, 4);
    let (shown, _) = frames(&steps, 42);
    let expected = rain_by_hand([42u8; 32], 6, 42, 4);
    assert_eq!(shown[2..], expected[..]);
    let wide = Cube { edge_length: 8, tick_ms: 10 };
    let mut driver = chain(72);
    let steps = wide.effect_random_rain(&mut driver, 3);
    let (shown, _) = frames(&steps, 72);
    assert_eq!(shown[2..], rain_by_hand([42u8; 32], 8, 72, 3)[..]);
}

#[test]
fn random_rain_follows_its_seed() {
    let cube = Cube { edge_length: 5, tick_ms: 100 };
    let mut seed = [0u8; 32];
    for (i, byte) in seed.iter_mut().enumerate() {
        *byte = (7 * i + 1) as u8;
    }
    let mut driver = chain(30);
    let steps = cube.effect_random_rain_seeded(&mut driver, &seed, 5);
    let (shown, _) = frames(&steps, 30);
    assert_eq!(shown[2..], rain_by_hand(seed, 5, 30, 5)[..]);
    let mut other = chain(30);
    let fixed = cube.effect_random_rain_seeded(&mut other, &RAIN_SEED, 5);
    let mut third = chain(30);
    assert_eq!(fixed, cube.effect_random_rain(&mut third, 5));
    assert_ne!(fixed, steps);
}

#[test]
fn random_rain_without_loops_is_a_flood_off() {
    let cube = Cube { edge_length: 5, tick_ms: 100 };
    let mut driver = chain(30);
    let steps = cube.effect_random_rain(&mut driver, 0);
    let mut plain = chain(30);
    assert_eq!(steps, cube.effect_light_none(&mut plain));
    assert_eq!(cells(&driver), cells(&plain));
}

#[test]
fn rain_word_puts_bit_j_on_cell_j() {
    let cube = Cube { edge_length: 5, tick_ms: 100 };
    let mut driver = chain(30);
    for cell in 0..30 {
        driver.set(cell, cell % 2 == 1).unwrap();
    }
    cube.rain_word(&mut driver, 0, 0b1_0000_0000_0000_0000_0000_0101);
    let after = cells(&driver);
    for cell in 0..25 {
        assert_eq!(after[cell], cell == 0 || cell == 2 || cell == 24, "cell {}", cell);
    }
    for cell in 25..30 {
        assert_eq!(after[cell], cell % 2 == 1, "cell {}", cell);
    }
}

#[test]
fn rain_word_ignores_bits_beyond_the_grid() {
    let cube = Cube { edge_length: 5, tick_ms: 100 };
    let mut driver = chain(40);
    cube.rain_word(&mut driver, 0, u32::MAX);
    let after = cells(&driver);
    for cell in 0..40 {
        assert_eq!(after[cell], cell < 25, "cell {}", cell);
    }
}

#[test]
fn rain_word_of_a_later_chunk_lands_on_the_first_cells() {
    let cube = Cube { edge_length: 6, tick_ms: 100 };
    let mut driver = chain(42);
    cube.rain_word(&mut driver, 1, u32::MAX);
    let after = cells(&driver);
    for cell in 0..42 {
        assert_eq!(after[cell], cell < 4, "cell {}", cell);
    }
    cube.rain_word(&mut driver, 0, 0);
    assert_eq!(cells(&driver), vec![false; 42]);
}

#[test]
fn rain_word_of_a_chunk_beyond_the_grid_changes_nothing() {
    let cube = Cube { edge_length: 6, tick_ms: 100 };
    let mut driver = chain(42);
    for chunk in [2usize, 3, 1000, usize::MAX] {
        cube.rain_word(&mut driver, chunk, u32::MAX);
        assert_eq!(cells(&driver), vec![false; 42]);
    }
    let exact = Cube { edge_length: 8, tick_ms: 100 };
    let mut driver = chain(72);
    exact.rain_word(&mut driver, 2, u32::MAX);
    assert_eq!(cells(&driver), vec![false; 72]);
    exact.rain_word(&mut driver, 1, u32::MAX);
    assert_eq!(cells(&driver)[..32], vec![true; 32][..]);
}

#[test]
fn random_rain_does_not_depend_on_what_the_chain_held() {
    let cube = Cube { edge_length: 5, tick_ms: 100 };
    let mut blank = chain(30);
    let mut used = chain(30);
    for cell in [0usize, 3, 17, 24, 26, 29] {
        used.set(cell, true).unwrap();
    }
    let one = cube.effect_random_rain(&mut blank, 4);
    let two = cube.effect_random_rain(&mut used, 4);
    assert_eq!(one, two);
    assert_eq!(cells(&blank), cells(&used));
}
