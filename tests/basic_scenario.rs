use sort_key::SortKey;

#[test]
fn unshift_only_scenario() {
    let mut sorted = vec![SortKey::default()];

    for _step in 1..=10_000_000 {
        unshift(&mut sorted);
        sorted.remove(1);
    }

    assert!(!sorted[0].to_string().is_empty());
}

#[test]
fn push_only_scenario() {
    let mut sorted = vec![SortKey::default()];

    for _step in 1..=10_000_000 {
        push(&mut sorted);
        sorted.remove(0);
    }

    assert!(!sorted[0].to_string().is_empty());
}

#[test]
fn insert_only_scenario() {
    let mut sorted = vec![SortKey::default()];
    push(&mut sorted);

    for _step in 1..=1_000 {
        insert(&mut sorted, 0);
        sorted.remove(2);
    }

    assert_sorted(&sorted);
}

/// A fixed-seed linear congruential generator.
struct Lcg(u64);

impl Lcg {
    fn next(&mut self) -> u64 {
        self.0 = self
            .0
            .wrapping_mul(6364136223846793005)
            .wrapping_add(1442695040888963407);
        self.0 >> 11
    }

    /// A uniform value in `[0, 1)`.
    fn unit(&mut self) -> f64 {
        (self.next() >> 11) as f64 / (1u64 << 42) as f64
    }

    /// A value in `[0, n)`.
    fn below(&mut self, n: usize) -> usize {
        (self.next() % n as u64) as usize
    }
}

#[test]
fn real_scenario() {
    let mut sorted = vec![SortKey::default()];
    let mut rng = Lcg(0xA94B1380F17CE18);

    for _step in 1..=100_000 {
        let r = rng.unit();

        if sorted.len() == 1 {
            if r <= 0.5 {
                unshift(&mut sorted);
            } else {
                push(&mut sorted);
            }
        } else if r <= sorted.len() as f64 / 40.0 {
            let at = rng.below(sorted.len());
            sorted.remove(at);
        } else {
            let r = rng.unit();
            if r <= 0.1 {
                unshift(&mut sorted);
            } else if r <= 0.2 {
                push(&mut sorted);
            } else {
                let after = rng.below(sorted.len() - 1);
                insert(&mut sorted, after);
            }
        }

        assert_sorted(&sorted);
    }
}

#[test]
fn insert_with_rebalance_scenario() {
    let mut sorted = vec![SortKey::default()];
    let mut rng = Lcg(0xA94B1380F17CE18);

    for step in 1..=100_000 {
        let r = rng.unit();

        if sorted.len() == 1 {
            if r <= 0.5 {
                unshift(&mut sorted);
            } else {
                push(&mut sorted);
            }
        } else if r <= sorted.len() as f64 / 40.0 {
            let at = rng.below(sorted.len());
            sorted.remove(at);
        } else {
            let after = rng.below(sorted.len() - 1);
            insert(&mut sorted, after);
        }

        if step % 100 == 0 {
            match sorted.last_mut() {
                None => {}
                Some(last) => *last = last.after(),
            }
        }

        assert_sorted(&sorted);
    }
}

fn unshift(sorted: &mut Vec<SortKey>) {
    sorted.insert(0, sorted[0].before());
}

fn push(sorted: &mut Vec<SortKey>) {
    sorted.push(sorted.last().unwrap().after());
}

fn insert(sorted: &mut Vec<SortKey>, after: usize) {
    let new_key = sorted[after].between(&sorted[after + 1]);
    sorted.insert(after + 1, new_key);
}

fn assert_sorted(sorted: &[SortKey]) {
    for i in 1..sorted.len() {
        assert!(sorted[i - 1] < sorted[i]);
    }
}
