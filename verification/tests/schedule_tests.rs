use vp_core::schedule::TickTimer;

const TARGET: u64 = 20_000;

#[test]
fn fresh_timer_budgets_the_full_target() {
    let timer = TickTimer::new(TARGET);
    assert_eq!(timer.sleep_budget(0), TARGET);
}

#[test]
fn budget_subtracts_elapsed_time() {
    let timer = TickTimer::new(TARGET);
    assert_eq!(timer.sleep_budget(3_000), 17_000);
}

#[test]
fn budget_is_zero_when_the_tick_ran_long() {
    let timer = TickTimer::new(TARGET);
    assert_eq!(timer.sleep_budget(TARGET + 1), 0);
}

#[test]
fn oversleep_is_charged_to_the_next_tick() {
    let mut timer = TickTimer::new(TARGET);
    let budget = timer.sleep_budget(2_000); // 18_000
    timer.settle(2_000, budget + 700); // overslept by 700
    assert_eq!(timer.next_target_micros, TARGET - 700);
}

#[test]
fn undersleep_is_credited_to_the_next_tick() {
    let mut timer = TickTimer::new(TARGET);
    let budget = timer.sleep_budget(5_000); // 15_000
    timer.settle(5_000, budget - 300); // woke early by 300
    assert_eq!(timer.next_target_micros, TARGET + 300);
}

#[test]
fn tick_overrun_is_charged_to_the_next_tick() {
    // A tick that ran past its whole carry gets no sleep, and the
    // deficit shrinks the next tick's carry instead of vanishing.
    let mut timer = TickTimer::new(100);
    let budget = timer.sleep_budget(150);
    assert_eq!(budget, 0);
    timer.settle(150, 0);
    assert_eq!(timer.next_target_micros, 50);
}

#[test]
fn drift_recovers_after_a_long_tick() {
    // One long tick, one idle tick: two periods still add up to exactly
    // two targets.
    let mut timer = TickTimer::new(100);
    let mut total: u64 = 0;

    let budget = timer.sleep_budget(150); // overran by 50
    assert_eq!(budget, 0);
    timer.settle(150, 0);
    total += 150;

    let budget = timer.sleep_budget(0);
    assert_eq!(budget, 50); // the deficit shortened this sleep
    timer.settle(0, budget);
    total += budget;

    assert_eq!(total, 200);
    assert_eq!(timer.next_target_micros, 100);
}

#[test]
fn next_target_never_goes_negative() {
    let mut timer = TickTimer::new(TARGET);
    timer.settle(0, u64::MAX / 2); // wildly late wake
    assert_eq!(timer.next_target_micros, 0);
}

#[test]
fn drift_stays_bounded_over_a_jittery_run() {
    // Simulate many ticks with varying processing times and oversleeps.
    // The total wall-clock time of K ticks may deviate from K * TARGET
    // only by the final carry — at most one target period, however many
    // ticks ran.
    let mut timer = TickTimer::new(TARGET);
    let jitters: [u64; 10] = [0, 500, 1_700, 300, 0, 999, 1_234, 50, 2_000, 10];
    let mut total: u64 = 0;
    let mut ticks: u64 = 0;
    for round in 0..5u64 {
        for (k, &jitter) in jitters.iter().enumerate() {
            let elapsed = (k as u64 * 37 + round * 11) % 3_000; // processing time
            let budget = timer.sleep_budget(elapsed);
            let slept = budget + jitter; // the OS only ever oversleeps here
            timer.settle(elapsed, slept);
            total += elapsed + slept;
            ticks += 1;
        }
    }
    let ideal = ticks * TARGET;
    assert!(total >= ideal, "ran fast: {} < {}", total, ideal);
    assert!(total <= ideal + TARGET, "drift accumulated: {} > {}", total, ideal + TARGET);
    // The telescoping identity: time spent plus the remaining carry is
    // exactly K * TARGET plus the initial carry.
    assert_eq!(total + timer.next_target_micros, ideal + TARGET);
}
