use kombox::tick::{placeholder_duration, TickRate};

#[test]
fn tick_rate_presets() {
    assert_eq!(TickRate::Potato.tps(), 20);
    assert_eq!(TickRate::Rice.tps(), 50);
    assert_eq!(TickRate::Beef.tps(), 100);
    assert_eq!(TickRate::Potato.label(), "Potato (20 TPS)");
    assert_eq!(TickRate::Rice.label(), "Rice (50 TPS)");
    assert_eq!(TickRate::Beef.label(), "Beef (100 TPS)");
}

#[test]
fn placeholder_duration_is_zero() {
    assert_eq!(placeholder_duration(), std::time::Duration::from_secs(0));
}
