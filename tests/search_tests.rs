use integral_graphs::database::{label, parse_entry};
use integral_graphs::search::{generate, record_result, SearchStats};
use integral_graphs::{AdjMatrix, Database, GraphError};

fn degrees(g: &AdjMatrix) -> Vec<usize> {
    g.adj_lists().iter().map(|(_, l)| l.len()).collect()
}

#[test]
fn generator_is_deterministic() {
    for seed in 69420..69430u64 {
        let a = generate(13, 4, seed, 1_000_000).unwrap();
        let b = generate(13, 4, seed, 1_000_000).unwrap();
        assert_eq!(a.graph6().unwrap(), b.graph6().unwrap());
        assert_eq!(a.adj_lists(), b.adj_lists());
    }
}

#[test]
fn generator_bounds_degrees() {
    for seed in 1..20u64 {
        let g = generate(13, 4, seed, 1_000_000).unwrap();
        assert_eq!(g.last_node(), 12);
        assert!(degrees(&g).iter().all(|&d| d <= 4 && d >= 1));
    }
}

#[test]
fn generator_keeps_small_complete_graphs() {
    let g = generate(4, 5, 7, 10).unwrap();
    assert_eq!(g.graph6().unwrap(), "C~");
}

#[test]
fn generator_reports_step_limit() {
    assert!(matches!(generate(13, 4, 3, 2), Err(GraphError::StepLimit)));
    assert!(matches!(generate(5, 0, 3, 10_000), Err(GraphError::StepLimit)));
    assert!(matches!(generate(0, 4, 3, 10), Err(GraphError::Size)));
}

#[test]
fn recording_a_key_twice() {
    let mut db = Database::new();
    let mut stats = SearchStats::new();
    assert!(record_result(&mut db, &mut stats, "Bw".to_string(), true));
    assert_eq!(stats, SearchStats { generated: 1, unique: 1, integral: 1 });
    assert!(!record_result(&mut db, &mut stats, "Bw".to_string(), false));
    assert_eq!(stats, SearchStats { generated: 2, unique: 1, integral: 1 });
    assert_eq!(db.get("Bw"), Some(true));
    assert!(record_result(&mut db, &mut stats, "B?".to_string(), false));
    assert_eq!(stats, SearchStats { generated: 3, unique: 2, integral: 1 });
}

#[test]
fn database_insert_and_get() {
    let mut db = Database::new();
    assert_eq!(db.get("x"), None);
    db.insert("x".to_string(), true);
    db.insert("y".to_string(), false);
    db.insert("x".to_string(), false);
    assert_eq!(db.get("x"), Some(false));
    assert_eq!(db.get("y"), Some(false));
    assert_eq!(db.entries().len(), 2);
}

#[test]
fn labels() {
    assert_eq!(label(true), "INTEGRAL");
    assert_eq!(label(false), "boring");
}

#[test]
fn parse_entry_reads_key_and_label() {
    assert_eq!(parse_entry(b"Bw INTEGRAL"), Some((2, true)));
    assert_eq!(parse_entry(b"L??? boring"), Some((4, false)));
    assert_eq!(parse_entry(b" boring"), Some((0, false)));
    assert_eq!(parse_entry(b"Bw true"), None);
    assert_eq!(parse_entry(b"Bw"), None);
    assert_eq!(parse_entry(b"Bw INTEGRAL "), None);
    assert_eq!(parse_entry(b"Bw  INTEGRAL"), None);
    assert_eq!(parse_entry(b""), None);
}
