use tcpgen::filename::asset_filename;
use tcpgen::taxonomy::Tier;
use tcpgen::{TCPType, TCP};

fn lines(xs: &[&str]) -> Vec<String> {
    xs.iter().map(|s| s.to_string()).collect()
}

#[test]
fn render_full_descriptor() {
    let t = TCP {
        types: vec![
            (TCPType::Weapon, "Sword".to_string()),
            (TCPType::Food, "Apple".to_string()),
        ],
        conditions: lines(&["Wet"]),
        modifiers: vec![("Fast".to_string(), Tier::Minor)],
        anomalies: vec![("Glow".to_string(), Tier::Major)],
        designer: true,
    };
    assert_eq!(
        t.to_text(),
        "designer 🗡️Sword/🌶Apple, conditions: Wet, anomalies: Glow (major), modifiers: Fast (minor)"
    );
}

#[test]
fn render_plain_descriptor() {
    let t = TCP {
        types: vec![(TCPType::Food, "Apple".to_string())],
        conditions: Vec::new(),
        modifiers: Vec::new(),
        anomalies: Vec::new(),
        designer: false,
    };
    assert_eq!(t.to_text(), "🌶Apple");
}

#[test]
fn render_joins_pairs_and_lists() {
    let t = TCP {
        types: vec![
            (TCPType::Nature, "Cloud".to_string()),
            (TCPType::Body, "Eye".to_string()),
        ],
        conditions: lines(&["Wet", "Cold"]),
        modifiers: Vec::new(),
        anomalies: Vec::new(),
        designer: false,
    };
    assert_eq!(t.to_text(), "☁️Cloud/👁️Eye, conditions: Wet, Cold");
}

#[test]
fn default_descriptor_is_empty() {
    let t = TCP::default();
    assert!(t.types.is_empty());
    assert!(t.conditions.is_empty());
    assert!(t.modifiers.is_empty());
    assert!(t.anomalies.is_empty());
    assert!(!t.designer);
}

#[test]
fn filename_from_the_worked_example() {
    // types picked as Weapon then Food, one anomaly Glow, nothing else
    let name = asset_filename(
        &lines(&["Weapon", "Food"]),
        &lines(&["Glow"]),
        &lines(&[]),
        &lines(&[]),
    );
    assert_eq!(name, "food.weapon-a_glow.png");
}

#[test]
fn filename_sorts_after_lowercasing_and_orders_parts() {
    let name = asset_filename(
        &lines(&["b", "A"]),
        &lines(&["Zed", "ace"]),
        &lines(&["Dry"]),
        &lines(&["Slow", "Fast"]),
    );
    assert_eq!(name, "a.b-a_ace.zed-c_dry-m_fast.slow.png");
}

#[test]
fn filename_of_types_alone() {
    let name = asset_filename(&lines(&["typeless"]), &lines(&[]), &lines(&[]), &lines(&[]));
    assert_eq!(name, "typeless.png");
}

#[test]
fn category_names_and_glyphs() {
    assert_eq!(TCPType::Food.name(), "Food");
    assert_eq!(TCPType::Unknown.name(), "Unknown");
    assert_eq!(TCPType::Food.get_emoji(), "🌶");
    assert_eq!(TCPType::Machine.get_emoji(), "⚙️");
    assert_eq!(Tier::Intermediate.name(), "intermediate");
}

#[test]
fn category_from_index_and_keyword() {
    assert_eq!(TCPType::from_index(0), TCPType::Abstract);
    assert_eq!(TCPType::from_index(8), TCPType::Weapon);
    assert_eq!(TCPType::from_index(9), TCPType::Unknown);
    assert_eq!(TCPType::from_index(42), TCPType::Unknown);
    assert_eq!(TCPType::from_keyword("food"), TCPType::Food);
    assert_eq!(TCPType::from_keyword("FooD"), TCPType::Food);
    assert_eq!(TCPType::from_keyword("storage"), TCPType::Storage);
    assert_eq!(TCPType::from_keyword("pasta"), TCPType::Unknown);
    assert_eq!(TCPType::from_keyword(""), TCPType::Unknown);
}

#[test]
fn category_index_is_canonical() {
    assert_eq!(TCPType::Abstract.index(), 0);
    assert_eq!(TCPType::Body.index(), 1);
    assert_eq!(TCPType::Creature.index(), 2);
    assert_eq!(TCPType::Food.index(), 3);
    assert_eq!(TCPType::Machine.index(), 4);
    assert_eq!(TCPType::Nature.index(), 5);
    assert_eq!(TCPType::Form.index(), 6);
    assert_eq!(TCPType::Storage.index(), 7);
    assert_eq!(TCPType::Weapon.index(), 8);
    assert_eq!(TCPType::Unknown.index(), 9);
}
