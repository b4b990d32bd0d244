use polyclops::TickClock;

#[test]
fn clock_runs_whole_ticks_and_carries_the_rest() {
    let mut c = TickClock::new(16);
    assert_eq!(c.step(), 16);
    assert_eq!(c.advance(10), 0);
    assert_eq!(c.lag(), 10);
    assert_eq!(c.advance(30), 2);
    assert_eq!(c.lag(), 8);
    assert_eq!(c.advance(0), 0);
    assert_eq!(c.lag(), 8);
}

#[test]
fn clock_catches_up_after_a_long_frame() {
    let mut c = TickClock::new(16_666_667);
    assert_eq!(c.advance(1_000_000_000), 59);
    assert_eq!(c.lag(), 1_000_000_000 - 59 * 16_666_667);
    let mut d = TickClock::new(1);
    assert_eq!(d.advance(u64::MAX), u64::MAX);
    assert_eq!(d.lag(), 0);
    let mut e = TickClock::new(u64::MAX);
    assert_eq!(e.advance(u64::MAX - 1), 0);
    assert_eq!(e.advance(2), 1);
    assert_eq!(e.lag(), 1);
}
