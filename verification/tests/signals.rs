use sigsched::{Id, Signal, SignalRegister, Signals};

fn id(n: u8) -> Id {
    Id::new(n).expect("identifier within register width")
}

/// Collects every identifier a snapshot yields, in order.
fn drain(mut s: Signals) -> Vec<u8> {
    let mut out: Vec<u8> = Vec::new();
    while let Some(i) = s.next() {
        out.push(u8::from(i));
    }
    out
}

#[test]
fn identifiers_are_bounded_by_register_width() {
    assert!(Id::new(0).is_some());
    assert!(Id::new(31).is_some());
    assert!(Id::new(32).is_none());
    assert!(Id::new(255).is_none());
    assert_eq!(u8::from(id(17)), 17);
}

#[test]
fn snapshot_yields_each_set_signal_once_highest_first() {
    let mut reg = SignalRegister::new();
    reg.set(id(3));
    reg.set(id(17));
    reg.set(id(0));
    reg.set(id(3)); // setting twice records the signal once
    let snapshot = Signals::read(&mut reg);
    assert!(!snapshot.is_empty());
    assert_eq!(drain(snapshot), vec![17, 3, 0]);
    // every bit set before the read was observed exactly once: a second
    // read finds nothing
    let later = Signals::read(&mut reg);
    assert!(later.is_empty());
    assert_eq!(drain(later), Vec::<u8>::new());
}

#[test]
fn reading_a_quiescent_register_is_empty_only_after_the_first_read() {
    let mut reg = SignalRegister::new();
    reg.set(id(5));
    let first = Signals::read(&mut reg);
    assert!(!first.is_empty());
    let second = Signals::read(&mut reg);
    assert!(second.is_empty());
}

#[test]
fn highest_identifier_round_trips_like_the_lowest() {
    let mut reg = SignalRegister::new();

    reg.set(id(31));
    let mut high = Signals::read(&mut reg);
    assert_eq!(high.next().map(u8::from), Some(31));
    assert_eq!(high.next(), None);
    assert!(Signals::read(&mut reg).is_empty());

    reg.set(id(0));
    let mut low = Signals::read(&mut reg);
    assert_eq!(low.next().map(u8::from), Some(0));
    assert_eq!(low.next(), None);
    assert!(Signals::read(&mut reg).is_empty());
}

#[test]
fn empty_snapshot_yields_nothing() {
    let mut reg = SignalRegister::new();
    let mut snapshot = Signals::read(&mut reg);
    assert!(snapshot.is_empty());
    assert_eq!(snapshot.next(), None);
}

#[test]
fn drain_returns_all_identifiers_highest_first() {
    let mut reg = SignalRegister::new();
    for n in [2u8, 30, 11] {
        reg.set(id(n));
    }
    let mut snapshot = Signals::read(&mut reg);
    assert_eq!(snapshot.drain(), vec![30, 11, 2]);
    assert!(snapshot.is_empty());
    assert_eq!(snapshot.next(), None);
}

#[test]
fn snapshot_is_unaffected_by_later_sets() {
    let mut reg = SignalRegister::new();
    reg.set(id(1));
    let snapshot = Signals::read(&mut reg);
    // a signal fired after the read lands in the register, not in the
    // already-taken snapshot
    reg.set(id(2));
    assert_eq!(drain(snapshot), vec![1]);
    assert_eq!(drain(Signals::read(&mut reg)), vec![2]);
}

struct Tick;

impl Signal for Tick {
    fn id_spec() -> Id {
        Self::id()
    }

    fn id() -> Id {
        Id::new(4).expect("identifier within register width")
    }
}

#[test]
fn signal_types_set_their_own_bit() {
    let mut reg = SignalRegister::new();
    Tick::set(&mut reg);
    let snapshot = Signals::read(&mut reg);
    assert_eq!(drain(snapshot), vec![4]);
}
