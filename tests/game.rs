use sliding_puzzle::game::next_image_index;
use sliding_puzzle::game::previous_image_index;
use sliding_puzzle::game::GameConfig;
use sliding_puzzle::game::ScrambleRun;

#[test]
fn default_config_values() {
    let c = GameConfig::default();
    assert_eq!(c.grid_side, 4);
    assert_eq!(c.start_window_side, 300);
    assert_eq!(c.scramble_steps, 100);
    assert_eq!(c.scramble_delay_ms, 15);
}

#[test]
fn image_index_wraps_both_ways() {
    assert_eq!(next_image_index(0, 3), 1);
    assert_eq!(next_image_index(2, 3), 0);
    assert_eq!(previous_image_index(0, 3), 2);
    assert_eq!(previous_image_index(2, 3), 1);
    assert_eq!(next_image_index(0, 1), 0);
    assert_eq!(previous_image_index(0, 1), 0);
}

#[test]
fn scramble_run_makes_its_steps() {
    let mut run = ScrambleRun::new(3);
    assert!(!run.is_active());
    assert!(!run.tick());
    run.start();
    assert!(run.is_active());
    let mut moves = 0;
    while run.tick() {
        moves += 1;
    }
    assert_eq!(moves, 3);
    assert!(!run.is_active());
}
