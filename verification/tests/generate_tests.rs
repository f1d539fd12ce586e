use tcpgen::taxonomy::Tier;
use tcpgen::{Randomness, TCPList, TCPType, ThreadRandomness};

/// A scripted source: replays a fixed cycle of values.
struct Script {
    vals: Vec<u64>,
    at: usize,
}

impl Script {
    fn new(vals: &[u64]) -> Script {
        Script { vals: vals.to_vec(), at: 0 }
    }

    fn take(&mut self) -> u64 {
        let v = self.vals[self.at % self.vals.len()];
        self.at += 1;
        v
    }
}

impl Randomness for Script {
    fn next_u32(&mut self) -> u32 {
        self.take() as u32
    }

    fn below(&mut self, n: usize) -> usize {
        (self.take() as usize) % n
    }

    fn one_in_four(&mut self) -> bool {
        self.take() % 4 == 0
    }
}

fn lines(xs: &[&str]) -> Vec<String> {
    xs.iter().map(|s| s.to_string()).collect()
}

fn adequate_catalog() -> TCPList {
    TCPList::from_sources(
        &vec![lines(&[
            "#food", "Apple", "Pear", "Plum", "Fig", "Date", "Sloe", "#weapon", "Sword", "Axe",
            "Bow", "Pike", "Club",
        ])],
        &lines(&["c1", "c2", "c3", "c4", "c5"]),
        &lines(&["m1", "m2", "m3", "m4", "m5"]),
        &lines(&["a1", "a2", "a3", "a4", "a5"]),
    )
}

#[test]
fn mode_a_shape() {
    let catalog = adequate_catalog();
    for seed in 0..40u64 {
        let mut random = Script::new(&[seed, seed + 7, seed * 13 + 1]);
        let t = catalog.gen_simple(seed % 2 == 0, &mut random);
        assert_eq!(t.types.len(), 1);
        assert!(t.conditions.is_empty());
        assert!(t.modifiers.is_empty());
        assert!(t.anomalies.is_empty());
        assert_eq!(t.designer, seed % 2 == 0);
    }
}

#[test]
fn mode_b_bounds_and_distinct_pairs() {
    let catalog = adequate_catalog();
    let mut random = ThreadRandomness::new();
    for _ in 0..300 {
        let t = catalog.gen_composite(false, &mut random);
        assert!(1 <= t.types.len() && t.types.len() <= 5);
        assert!(t.conditions.len() <= 4);
        assert!(t.modifiers.len() <= 4);
        assert!(t.anomalies.len() <= 4);
        for i in 0..t.types.len() {
            for j in 0..t.types.len() {
                if i != j {
                    assert!(t.types[i].0 != t.types[j].0 || t.types[i].1 != t.types[j].1);
                }
            }
        }
    }
}

#[test]
fn generated_parts_come_from_the_catalog() {
    let catalog = adequate_catalog();
    let mut random = ThreadRandomness::new();
    for _ in 0..200 {
        let t = catalog.gen(&mut random);
        for (cat, item) in t.types.iter() {
            let row = catalog.types.iter().find(|r| r.0 == *cat).expect("category listed");
            assert!(row.1.contains(item));
        }
        for c in t.conditions.iter() {
            assert!(catalog.conditions.contains(c));
        }
        for (m, _) in t.modifiers.iter() {
            assert!(catalog.modifiers.contains(m));
        }
        for (a, _) in t.anomalies.iter() {
            assert!(catalog.anomalies.contains(a));
        }
    }
}

#[test]
fn without_replacement_exhausts_the_category() {
    // one category of three items; three picks must return exactly its item set
    let catalog = TCPList::from_sources(
        &vec![lines(&["#food", "Apple", "Pear", "Plum"])],
        &lines(&[]),
        &lines(&[]),
        &lines(&[]),
    );
    for seed in 0..30u64 {
        let mut random = Script::new(&[seed, seed * 3 + 2, seed + 11, 5, 1]);
        let picks = catalog.pick_types(3, &mut random);
        assert_eq!(picks.len(), 3);
        let mut items: Vec<String> = picks.iter().map(|p| p.1.clone()).collect();
        items.sort();
        assert_eq!(items, lines(&["Apple", "Pear", "Plum"]));
        for p in picks.iter() {
            assert_eq!(p.0, TCPType::Food);
        }
    }
}

#[test]
fn sample_distinct_returns_distinct_members() {
    let list = lines(&["a", "b", "c", "d"]);
    let mut random = ThreadRandomness::new();
    for _ in 0..50 {
        let got = tcpgen::generate::sample_distinct(&list, 2, &mut random);
        assert_eq!(got.len(), 2);
        assert_ne!(got[0], got[1]);
        assert!(list.contains(&got[0]) && list.contains(&got[1]));
    }
}

#[test]
fn tier_gen_maps_draws_to_labels() {
    let mut random = Script::new(&[0]);
    assert_eq!(Tier::gen(&mut random), Tier::Minor);
    let mut random = Script::new(&[1]);
    assert_eq!(Tier::gen(&mut random), Tier::Intermediate);
    let mut random = Script::new(&[2]);
    assert_eq!(Tier::gen(&mut random), Tier::Major);
}

#[test]
fn statistical_properties() {
    let catalog = adequate_catalog();
    let mut random = ThreadRandomness::new();
    let trials = 10000;
    let mut designer_count = 0u32;
    let mut type_count_one = 0u32;
    let mut type_count_sum = 0u64;
    let mut tier_counts = [0u32; 3];
    for _ in 0..trials {
        let t = catalog.gen(&mut random);
        if t.designer {
            designer_count += 1;
        }
        let b = catalog.gen_composite(false, &mut random);
        if b.types.len() == 1 {
            type_count_one += 1;
        }
        type_count_sum += b.types.len() as u64;
        for (_, tier) in b.modifiers.iter().chain(b.anomalies.iter()) {
            match tier {
                Tier::Minor => tier_counts[0] += 1,
                Tier::Intermediate => tier_counts[1] += 1,
                Tier::Major => tier_counts[2] += 1,
            }
        }
    }
    // designer flag: Bernoulli(0.25)
    let designer_rate = designer_count as f64 / trials as f64;
    assert!(designer_rate > 0.22 && designer_rate < 0.28, "designer rate {designer_rate}");
    // typeCount: Binomial(4, 0.13) + 1, so P(1) = 0.87^4 and mean = 1.52
    let one_rate = type_count_one as f64 / trials as f64;
    assert!(one_rate > 0.54 && one_rate < 0.61, "typeCount==1 rate {one_rate}");
    let mean = type_count_sum as f64 / trials as f64;
    assert!(mean > 1.45 && mean < 1.59, "typeCount mean {mean}");
    // tiers: uniform over the three labels
    let total: u32 = tier_counts.iter().sum();
    assert!(total > 1000);
    for count in tier_counts {
        let share = count as f64 / total as f64;
        assert!(share > 0.29 && share < 0.38, "tier share {share}");
    }
}

#[test]
fn gen_dispatches_on_the_mode_bit() {
    let catalog = adequate_catalog();
    // an even mode word picks Mode A: one pair, nothing else
    let mut random = Script::new(&[0]);
    let t = catalog.gen(&mut random);
    assert!(t.designer);
    assert_eq!(t.types.len(), 1);
    assert!(t.conditions.is_empty() && t.modifiers.is_empty() && t.anomalies.is_empty());
    // an odd mode word picks Mode B; all-ones draws keep every count minimal
    let mut random = Script::new(&[1]);
    let t = catalog.gen(&mut random);
    assert!(!t.designer);
    assert_eq!(t.types.len(), 1);
    assert!(t.conditions.is_empty() && t.modifiers.is_empty() && t.anomalies.is_empty());
}
