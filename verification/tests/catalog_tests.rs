use tcpgen::{TCPList, TCPType};

fn lines(xs: &[&str]) -> Vec<String> {
    xs.iter().map(|s| s.to_string()).collect()
}

fn names(v: &Vec<String>) -> Vec<&str> {
    v.iter().map(|s| s.as_str()).collect()
}

fn load(type_files: &[&[&str]], conds: &[&str], mods: &[&str], anoms: &[&str]) -> TCPList {
    let tf: Vec<Vec<String>> = type_files.iter().map(|f| lines(f)).collect();
    TCPList::from_sources(&tf, &lines(conds), &lines(mods), &lines(anoms))
}

#[test]
fn load_basic() {
    let c = load(
        &[&["#food", "Apple", "Pear", "", "#weapon", "Sword"]],
        &["Rusty", "Shiny", "Rusty"],
        &["Fast"],
        &["Glow"],
    );
    assert_eq!(c.types.len(), 2);
    assert_eq!(c.types[0].0, TCPType::Food);
    assert_eq!(names(&c.types[0].1), vec!["Apple", "Pear"]);
    assert_eq!(c.types[1].0, TCPType::Weapon);
    assert_eq!(names(&c.types[1].1), vec!["Sword"]);
    assert_eq!(names(&c.conditions), vec!["Rusty", "Shiny"]);
    assert_eq!(names(&c.modifiers), vec!["Fast"]);
    assert_eq!(names(&c.anomalies), vec!["Glow"]);
}

#[test]
fn unknown_header_falls_back() {
    let c = load(&[&["Mystery", "#gibberish", "Thing"]], &[], &[], &[]);
    assert_eq!(c.types.len(), 1);
    assert_eq!(c.types[0].0, TCPType::Unknown);
    assert_eq!(names(&c.types[0].1), vec!["Mystery", "Thing"]);
}

#[test]
fn unknown_removed_when_empty() {
    let c = load(&[&["#food", "Apple"]], &[], &[], &[]);
    assert_eq!(c.types.len(), 1);
    assert_eq!(c.types[0].0, TCPType::Food);
}

#[test]
fn category_resets_per_file() {
    let c = load(&[&["#food", "Apple"], &["Berry"]], &[], &[], &[]);
    assert_eq!(c.types.len(), 2);
    assert_eq!(c.types[0].0, TCPType::Food);
    assert_eq!(c.types[1].0, TCPType::Unknown);
    assert_eq!(names(&c.types[1].1), vec!["Berry"]);
}

#[test]
fn global_dedup_first_occurrence_wins() {
    let c = load(&[&["#food", "Apple"], &["#weapon", "Apple", "Sword"]], &[], &[], &[]);
    assert_eq!(c.types.len(), 2);
    assert_eq!(names(&c.types[0].1), vec!["Apple"]);
    assert_eq!(names(&c.types[1].1), vec!["Sword"]);
}

#[test]
fn duplicate_in_one_file_dropped() {
    let c = load(&[&["#food", "Apple", "Apple"]], &[], &[], &[]);
    assert_eq!(names(&c.types[0].1), vec!["Apple"]);
}

#[test]
fn lines_are_trimmed_and_blanks_skipped() {
    let c = load(&[&["  #food  ", "  Apple  ", "   ", "\tPear\t"]], &["  Wet  ", ""], &[], &[]);
    assert_eq!(names(&c.types[0].1), vec!["Apple", "Pear"]);
    assert_eq!(names(&c.conditions), vec!["Wet"]);
}

#[test]
fn header_keyword_is_case_insensitive() {
    let c = load(&[&["#FOOD", "Apple", "#Weapon", "Sword"]], &[], &[], &[]);
    assert_eq!(c.types[0].0, TCPType::Food);
    assert_eq!(c.types[1].0, TCPType::Weapon);
}

#[test]
fn header_alone_keeps_category_empty() {
    let c = load(&[&["#food"]], &[], &[], &[]);
    assert_eq!(c.types.len(), 1);
    assert_eq!(c.types[0].0, TCPType::Food);
    assert!(c.types[0].1.is_empty());
}

#[test]
fn categories_come_in_canonical_order() {
    let c = load(&[&["#weapon", "Sword", "#abstract", "Idea", "#food", "Apple"]], &[], &[], &[]);
    assert_eq!(c.types[0].0, TCPType::Abstract);
    assert_eq!(c.types[1].0, TCPType::Food);
    assert_eq!(c.types[2].0, TCPType::Weapon);
}

#[test]
fn category_item_sets_are_disjoint() {
    // the same names offered under several categories across files
    let c = load(
        &[
            &["#food", "Apple", "Pear", "Sword"],
            &["#weapon", "Sword", "Apple", "Axe"],
            &["#nature", "Cloud", "Pear"],
        ],
        &[],
        &[],
        &[],
    );
    for i in 0..c.types.len() {
        for j in 0..c.types.len() {
            if i != j {
                for item in c.types[i].1.iter() {
                    assert!(!c.types[j].1.contains(item));
                }
            }
        }
    }
}

#[test]
fn flat_lists_have_no_duplicates() {
    let c = load(
        &[],
        &["Wet", "Dry", "Wet", "  Dry "],
        &["Fast", "Fast"],
        &["Glow", "Hum", "Glow"],
    );
    for list in [&c.conditions, &c.modifiers, &c.anomalies] {
        for i in 0..list.len() {
            for j in 0..list.len() {
                if i != j {
                    assert_ne!(list[i], list[j]);
                }
            }
        }
    }
    assert_eq!(names(&c.conditions), vec!["Dry", "Wet"]);
}

#[test]
fn traversal_order_independence() {
    let file_a: &[&str] = &["#food", "Apple", "Pear"];
    let file_b: &[&str] = &["#weapon", "Sword"];
    let file_c: &[&str] = &["Odd", "#nature", "Cloud"];
    let c1 = load(
        &[file_a, file_b, file_c],
        &["Wet", "Dry"],
        &["Fast", "Slow"],
        &["Glow"],
    );
    let c2 = load(
        &[file_c, file_a, file_b],
        &["Dry", "Wet"],
        &["Slow", "Fast"],
        &["Glow"],
    );
    assert_eq!(c1.types.len(), c2.types.len());
    for k in 0..c1.types.len() {
        assert_eq!(c1.types[k].0, c2.types[k].0);
        assert_eq!(c1.types[k].1, c2.types[k].1);
    }
    assert_eq!(c1.conditions, c2.conditions);
    assert_eq!(c1.modifiers, c2.modifiers);
    assert_eq!(c1.anomalies, c2.anomalies);
}

#[test]
fn is_adequate_checks_every_list() {
    let small = load(&[&["#food", "Apple"]], &[], &[], &[]);
    assert!(!small.is_adequate());
    let big = load(
        &[&["#food", "A", "B", "C", "D", "E"]],
        &["c1", "c2", "c3", "c4"],
        &["m1", "m2", "m3", "m4"],
        &["a1", "a2", "a3", "a4"],
    );
    assert!(big.is_adequate());
}
