use celestial::registry::Registry;
use celestial::schedule::{Cursor, Step};
use std::sync::{Arc, RwLock};

#[test]
fn appends_between_steps_are_all_kept() {
    let registry: Arc<RwLock<Registry<RwLock<(f64, f64)>>>> =
        Arc::new(RwLock::new(Registry::new()));
    registry.write().unwrap().append(RwLock::new((1.0, 0.0)));
    registry.write().unwrap().append(RwLock::new((2.0, 0.0)));

    let writer = Arc::clone(&registry);
    for i in 0..50usize {
        {
            let bodies = registry.read().unwrap();
            assert_eq!(bodies.len(), 2 + i);
            let mut cursor = Cursor::start(bodies.len());
            while let Some(step) = cursor.advance() {
                match step {
                    Step::Begin { subject } => bodies.get(subject).write().unwrap().1 = 0.0,
                    Step::Pull { subject, other } => {
                        let seen = bodies.get(other).read().unwrap().0;
                        bodies.get(subject).write().unwrap().1 += seen;
                    }
                    Step::Kick { .. } => {}
                    Step::Drift { .. } => {}
                }
            }
        }
        let index = writer.write().unwrap().append(RwLock::new((i as f64, 0.0)));
        assert_eq!(index, 2 + i);
    }

    let bodies = registry.read().unwrap();
    assert_eq!(bodies.len(), 52);
    assert_eq!(bodies.get(0).read().unwrap().0, 1.0);
    assert_eq!(bodies.get(1).read().unwrap().0, 2.0);
    let mut total: f64 = 3.0;
    for i in 0..49usize {
        total += i as f64;
    }
    for i in 0..50usize {
        let value = *bodies.get(2 + i).read().unwrap();
        assert_eq!(value.0, i as f64);
        if i < 49 {
            assert_eq!(value.1, total - value.0);
        } else {
            assert_eq!(value.1, 0.0);
        }
    }
}
