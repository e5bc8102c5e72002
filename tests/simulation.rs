use pandemic_sim::contagion::contaminate;
use pandemic_sim::dice::Dice;
use pandemic_sim::human::{Human, WINDOW_HEIGHT, WINDOW_WIDTH};
use pandemic_sim::population::{Population, INITIAL_INFECTED_POPULATION, TOTAL_POPULATION_SIZE};
use pandemic_sim::progression::{incubation_over, progress, simulate, Fate};

fn still(id: u64, x: i32, y: i32, infected_at: i64) -> Human {
    Human::at(id, x, y, 0, 0, infected_at)
}

fn counts(p: &Population) -> (usize, usize, usize, usize) {
    (p.healthy.len(), p.infected.len(), p.recovered.len(), p.dead.len())
}

fn all_ids(p: &Population) -> Vec<u64> {
    let mut v: Vec<u64> = Vec::new();
    for a in p.healthy.iter().chain(p.infected.iter()).chain(p.recovered.iter()).chain(p.dead.iter()) {
        v.push(a.id);
    }
    v.sort();
    v
}

#[test]
fn no_contact_keeps_counts_for_a_thousand_ticks() {
    let mut p = Population::new();
    p.infected.push(still(0, 0, 0, 0));
    p.healthy.push(still(1, 50000, 50000, 0));
    let mut dice = Dice::random();
    for _ in 0..1000 {
        p.tick(0, &mut dice);
    }
    assert_eq!(counts(&p), (1, 1, 0, 0));
}

#[test]
fn forced_contact_infects_and_stamps_the_clock() {
    let mut healthy = vec![still(1, 300, 400, 0)];
    let mut infected = vec![still(0, 300, 400, 0)];
    let mut dice = Dice::scripted(vec![2]);
    let caught = contaminate(&mut healthy, &mut infected, 0, 12345, &mut dice);
    assert_eq!(caught, 1);
    assert_eq!(healthy.len(), 0);
    assert_eq!(infected.len(), 2);
    assert_eq!(infected[1].id, 1);
    assert_eq!(infected[1].infected_at, 12345);
    assert_eq!(infected[0].infected_at, 0);
}

#[test]
fn failed_roll_leaves_contact_healthy() {
    let mut healthy = vec![still(1, 300, 400, 0)];
    let mut infected = vec![still(0, 300, 400, 0)];
    let mut dice = Dice::scripted(vec![3]);
    let caught = contaminate(&mut healthy, &mut infected, 0, 12345, &mut dice);
    assert_eq!(caught, 0);
    assert_eq!(healthy.len(), 1);
    assert_eq!(infected.len(), 1);
}

#[test]
fn removal_during_scan_skips_no_agent() {
    let mut healthy = vec![still(1, 0, 0, 0), still(2, 0, 0, 0), still(3, 0, 0, 0), still(4, 0, 0, 0)];
    let mut infected = vec![still(0, 0, 0, 0)];
    let mut dice = Dice::scripted(vec![1, 50, 2, 1]);
    let caught = contaminate(&mut healthy, &mut infected, 0, 7, &mut dice);
    assert_eq!(caught, 3);
    assert_eq!(healthy.iter().map(|a| a.id).collect::<Vec<u64>>(), vec![2]);
    assert_eq!(infected.iter().map(|a| a.id).collect::<Vec<u64>>(), vec![0, 1, 3, 4]);
}

#[test]
fn far_agent_is_never_contaminated() {
    let mut healthy = vec![still(1, 1001, 0, 0), still(2, 600, 800, 0)];
    let mut infected = vec![still(0, 0, 0, 0)];
    let mut dice = Dice::scripted(vec![1, 1]);
    let caught = contaminate(&mut healthy, &mut infected, 0, 7, &mut dice);
    assert_eq!(caught, 1);
    assert_eq!(healthy.iter().map(|a| a.id).collect::<Vec<u64>>(), vec![1]);
    assert_eq!(infected[1].id, 2);
}

#[test]
fn forced_death_after_incubation() {
    let mut p = Population::new();
    p.infected.push(still(0, 100, 100, 1000));
    let mut dice = Dice::scripted(vec![1]);
    p.tick(21000, &mut dice);
    assert_eq!(counts(&p), (0, 0, 0, 1));
    assert_eq!(p.dead[0].id, 0);
}

#[test]
fn simulate_moves_dead_carrier_and_shrinks_bound() {
    let mut healthy: Vec<Human> = Vec::new();
    let mut infected = vec![still(0, 100, 100, 0), still(1, 5000, 5000, 0)];
    let mut recovered: Vec<Human> = Vec::new();
    let mut dead: Vec<Human> = Vec::new();
    let mut dice = Dice::scripted(vec![1]);
    let end = simulate(&mut healthy, &mut infected, &mut recovered, &mut dead, 0, 2, 20000, &mut dice);
    assert_eq!(end, 1);
    assert_eq!(infected.len(), 1);
    assert_eq!(infected[0].id, 1);
    assert_eq!(dead.len(), 1);
    assert_eq!(dead[0].id, 0);
    assert_eq!(recovered.len(), 0);
}

#[test]
fn recovery_after_incubation() {
    let mut dice = Dice::scripted(vec![50, 98]);
    assert_eq!(progress(20000, 0, &mut dice), Fate::Recovers);
    let mut dice = Dice::scripted(vec![2, 97]);
    assert_eq!(progress(20000, 0, &mut dice), Fate::StaysInfected);
    let mut dice = Dice::scripted(vec![1, 100]);
    assert_eq!(progress(20000, 0, &mut dice), Fate::Dies);
}

#[test]
fn incubation_gates_progression() {
    let mut p = Population::new();
    p.infected.push(still(0, 100, 100, 1));
    let mut dice = Dice::scripted(vec![1, 100]);
    p.tick(20000, &mut dice);
    assert_eq!(counts(&p), (0, 1, 0, 0));
    assert_eq!(dice.roll(), 1);
    assert!(!incubation_over(19999, 0));
    assert!(incubation_over(20000, 0));
    assert!(!incubation_over(i64::MIN, i64::MAX));
    assert!(incubation_over(i64::MAX, i64::MIN));
}

#[test]
fn every_carrier_takes_its_turn_after_a_removal() {
    let mut p = Population::new();
    p.infected.push(still(0, 100, 100, 0));
    p.infected.push(still(1, 5000, 5000, 0));
    p.infected.push(still(2, 9000, 9000, 0));
    let mut dice = Dice::scripted(vec![1, 50, 99, 1]);
    p.tick(30000, &mut dice);
    assert_eq!(p.dead.iter().map(|a| a.id).collect::<Vec<u64>>(), vec![0, 2]);
    assert_eq!(p.recovered.iter().map(|a| a.id).collect::<Vec<u64>>(), vec![1]);
    assert_eq!(p.infected.len(), 0);
}

#[test]
fn newly_infected_take_no_turn_in_the_same_tick() {
    let mut p = Population::new();
    p.infected.push(still(0, 100, 100, 0));
    p.healthy.push(Human::at(1, 100, 100, 10, 0, 0));
    let mut dice = Dice::scripted(vec![1, 50, 50, 77]);
    p.tick(40000, &mut dice);
    assert_eq!(counts(&p), (0, 2, 0, 0));
    assert_eq!(p.infected[1].infected_at, 40000);
    assert_eq!(p.infected[1].x, 100);
    assert_eq!(dice.roll(), 77);
}

#[test]
fn conservation_and_distinct_identities_over_ticks() {
    let mut p = Population::populate();
    let mut dice = Dice::random();
    let before = all_ids(&p);
    for t in 0..200 {
        p.tick(25000 + t * 16, &mut dice);
        let (h, i, r, d) = counts(&p);
        assert_eq!(h + i + r + d, TOTAL_POPULATION_SIZE as usize);
    }
    assert_eq!(all_ids(&p), before);
    let expected: Vec<u64> = (0..TOTAL_POPULATION_SIZE).collect();
    assert_eq!(before, expected);
}

#[test]
fn dead_and_recovered_stay_settled() {
    let mut p = Population::new();
    p.dead.push(still(0, 100, 100, 0));
    p.recovered.push(Human::at(1, 100, 100, 10, 0, 0));
    p.infected.push(still(2, 100, 100, 0));
    let mut dice = Dice::scripted(vec![1, 1]);
    p.tick(50000, &mut dice);
    assert_eq!(p.dead.iter().map(|a| a.id).collect::<Vec<u64>>(), vec![0, 2]);
    assert_eq!(p.recovered.len(), 1);
    assert_eq!(p.recovered[0].x, 110);
    assert_eq!(p.dead[0].x, 100);
}

#[test]
fn reset_restores_initial_distribution() {
    let mut p = Population::populate();
    let mut dice = Dice::random();
    for t in 0..30 {
        p.tick(100000 + t, &mut dice);
    }
    p.reset();
    let healthy = (TOTAL_POPULATION_SIZE - INITIAL_INFECTED_POPULATION) as usize;
    assert_eq!(counts(&p), (healthy, INITIAL_INFECTED_POPULATION as usize, 0, 0));
    for a in p.healthy.iter().chain(p.infected.iter()) {
        assert!(a.x >= 100 && a.x < WINDOW_WIDTH);
        assert!(a.y >= 100 && a.y < WINDOW_HEIGHT);
        assert!(a.vx >= -100 && a.vx < 200);
        assert!(a.vy >= -100 && a.vy < 200);
        assert_eq!(a.infected_at, 0);
    }
    p.reset();
    assert_eq!(counts(&p), (healthy, INITIAL_INFECTED_POPULATION as usize, 0, 0));
}

#[test]
fn random_spawn_stays_in_its_box() {
    for id in 0..200 {
        let a = Human::new(id, 10, 20, 13, 22);
        assert_eq!(a.id, id);
        assert!(a.x >= 10 && a.x < 13);
        assert!(a.y >= 20 && a.y < 22);
    }
    let xs: Vec<i32> = (0..200).map(|id| Human::new(id, 10, 20, 13, 22).x).collect();
    assert!(xs.iter().any(|x| *x != 10));
    assert!(xs.iter().any(|x| *x != 12));
}

#[test]
fn paused_frame_changes_nothing() {
    let mut p = Population::new();
    p.infected.push(Human::at(0, 100, 100, 5, 5, 0));
    let mut dice = Dice::scripted(vec![1]);
    p.frame(false, false, 90000, &mut dice);
    assert_eq!(counts(&p), (0, 1, 0, 0));
    assert_eq!(p.infected[0].x, 100);
    p.frame(true, false, 90000, &mut dice);
    assert_eq!(counts(&p), (0, 0, 0, 1));
    assert_eq!(p.dead[0].x, 105);
    p.frame(false, true, 90000, &mut dice);
    assert_eq!(counts(&p).0 + counts(&p).1, TOTAL_POPULATION_SIZE as usize);
}

#[test]
fn step_reads_the_clock() {
    let mut p = Population::new();
    p.infected.push(still(0, 100, 100, 0));
    let mut dice = Dice::scripted(vec![1]);
    p.step(&mut dice);
    assert_eq!(counts(&p), (0, 0, 0, 1));
}

#[test]
fn movement_and_wall_bounce() {
    let mut a = Human::at(0, 50, 100, -100, 30, 0);
    a.advance();
    assert_eq!((a.x, a.y, a.vx, a.vy), (-50, 130, 100, 30));
    a.advance();
    assert_eq!((a.x, a.y, a.vx, a.vy), (50, 160, 100, 30));
    let mut b = Human::at(1, WINDOW_WIDTH - 10, WINDOW_HEIGHT, 20, 5, 0);
    b.update_position();
    assert_eq!((b.x, b.y), (WINDOW_WIDTH + 10, WINDOW_HEIGHT + 5));
    b.wall_bump();
    assert_eq!((b.vx, b.vy), (-20, -5));
}

#[test]
fn contact_distance_is_twice_the_radius() {
    let a = still(0, 0, 0, 0);
    assert!(a.touches(&still(1, 1000, 0, 0)));
    assert!(a.touches(&still(1, 600, 800, 0)));
    assert!(!a.touches(&still(1, 1001, 0, 0)));
    assert!(!a.touches(&still(1, 601, 800, 0)));
    assert!(a.touches(&still(1, -800, -600, 0)));
}

#[test]
fn scripted_dice_then_random() {
    let mut dice = Dice::scripted(vec![5, 100]);
    assert_eq!(dice.roll(), 5);
    assert_eq!(dice.roll(), 100);
    let mut seen_high = false;
    for _ in 0..500 {
        let r = dice.roll();
        assert!(r >= 1 && r <= 100);
        if r > 1 {
            seen_high = true;
        }
    }
    assert!(seen_high);
}
