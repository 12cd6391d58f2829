use strenor::score::OrderedF64;
use strenor::zset::{Scored, ZSet};

fn b(s: &str) -> Vec<u8> {
    s.as_bytes().to_vec()
}

fn f(x: f64) -> OrderedF64 {
    OrderedF64(x.to_bits())
}

/// Increment a score, the sum taken here.
fn incr(z: &mut ZSet, member: Vec<u8>, delta: f64) -> Result<f64, ()> {
    let base = f64::from_bits(z.incr_base(&member).0);
    z.incr_by(member, f(base + delta)).map(|x| f64::from_bits(x.0))
}

#[test]
fn add_orders_by_score() {
    let mut z = ZSet::new();
    assert_eq!(z.add(b("bob"), f(50.0)), Ok(true));
    assert_eq!(z.add(b("alice"), f(100.0)), Ok(true));
    assert_eq!(z.add(b("carol"), f(10.0)), Ok(true));
    assert_eq!(z.add(b("bob"), f(50.0)), Ok(false)); // update, not new
    assert_eq!(z.len(), 3);
    assert_eq!(z.range(0, -1), vec![b("carol"), b("bob"), b("alice")]);
}

#[test]
fn update_moves_position() {
    let mut z = ZSet::new();
    z.add(b("a"), f(1.0)).unwrap();
    z.add(b("b"), f(2.0)).unwrap();
    z.add(b("a"), f(3.0)).unwrap(); // a jumps above b
    assert_eq!(z.range(0, -1), vec![b("b"), b("a")]);
    assert_eq!(z.score(&b("a")), Some(f(3.0)));
}

#[test]
fn rank_and_scores() {
    let mut z = ZSet::new();
    z.add(b("low"), f(1.0)).unwrap();
    z.add(b("mid"), f(2.0)).unwrap();
    z.add(b("high"), f(3.0)).unwrap();
    assert_eq!(z.rank(&b("low")), Some(0));
    assert_eq!(z.rank(&b("high")), Some(2));
    assert_eq!(z.rank(&b("ghost")), None);

    let scored = z.range_scored(-2, -1);
    assert_eq!(
        scored[0],
        Scored {
            member: b("mid"),
            score: f(2.0)
        }
    );
    assert_eq!(
        scored[1],
        Scored {
            member: b("high"),
            score: f(3.0)
        }
    );
}

#[test]
fn ties_break_by_member() {
    let mut z = ZSet::new();
    z.add(b("banana"), f(5.0)).unwrap();
    z.add(b("apple"), f(5.0)).unwrap();
    assert_eq!(z.range(0, -1), vec![b("apple"), b("banana")]);
}

#[test]
fn remove_and_incr() {
    let mut z = ZSet::new();
    z.add(b("p"), f(10.0)).unwrap();
    assert_eq!(incr(&mut z, b("p"), 5.0), Ok(15.0));
    assert_eq!(incr(&mut z, b("new"), 3.0), Ok(3.0)); // created at delta
    assert!(z.remove(&b("p")));
    assert!(!z.remove(&b("p")));
    assert_eq!(z.score(&b("p")), None);
}

#[test]
fn rejects_nan_and_non_finite() {
    let mut z = ZSet::new();
    assert_eq!(z.add(b("x"), f(f64::NAN)), Err(()));
    z.add(b("y"), f(f64::MAX)).unwrap();
    assert_eq!(incr(&mut z, b("y"), f64::MAX), Err(())); // overflow to +inf
}

#[test]
fn range_out_of_bounds() {
    let mut z = ZSet::new();
    z.add(b("a"), f(1.0)).unwrap();
    assert_eq!(z.range(5, 10), Vec::<Vec<u8>>::new());
    assert!(z.range(0, -1).len() == 1);
    let empty = ZSet::new();
    assert_eq!(empty.range(0, -1), Vec::<Vec<u8>>::new());
}
