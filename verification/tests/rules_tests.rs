use qautomata::config::fingerprint;
use qautomata::coords::Coordinates;
use qautomata::rules::{get_default_rules, yaml_rules_to_universe_rules, RuleError, YamlRulesComplex};

fn yc(re: &str, im: &str) -> YamlRulesComplex {
    YamlRulesComplex {
        re: re.to_string(),
        im: im.to_string(),
    }
}

#[test]
fn default_rules_basis_entries() {
    let rules = get_default_rules().unwrap();
    let e00 = rules.entry(0, 0).as_complex();
    assert_eq!(e00.re, 1.0);
    assert_eq!(e00.im, 0.0);
    let e14 = rules.entry(1, 4).as_complex();
    assert_eq!(e14.re, 1.0);
    let zero = rules.entry(0, 1).as_complex();
    assert_eq!(zero.re, 0.0);
    assert_eq!(zero.im, 0.0);
}

#[test]
fn default_rules_split_and_phase_entries() {
    let rules = get_default_rules().unwrap();
    let s = rules.entry(6, 6).as_complex();
    assert!((s.re - 0.7071067811865475).abs() < 1e-12);
    assert_eq!(s.im, 0.0);
    let n = rules.entry(9, 9).as_complex();
    assert!((n.re + 0.7071067811865475).abs() < 1e-12);
    let p = rules.entry(5, 7).as_complex();
    assert!((p.re - 0.7071067811865476).abs() < 1e-12);
    assert!((p.im - 0.7071067811865475).abs() < 1e-12);
    let q = rules.entry(15, 15).as_complex();
    assert!(q.re.abs() < 1e-15);
    assert!((q.im - 1.0).abs() < 1e-12);
}

#[test]
fn yaml_rules_evaluate_expressions() {
    let yaml = vec![
        (0, vec![(0, yc("1", "0"))]),
        (3, vec![(7, yc("0.5", "PI/4")), (2, yc("E", "1/2"))]),
    ];
    let rules = yaml_rules_to_universe_rules(&yaml).unwrap();
    let a = rules.entry(3, 7).as_complex();
    assert_eq!(a.re, 0.5);
    assert!((a.im - 0.7853981633974483).abs() < 1e-15);
    let b = rules.entry(3, 2).as_complex();
    assert!((b.re - 2.718281828459045).abs() < 1e-15);
    // evalexpr divides integers as integers
    assert_eq!(b.im, 0.0);
    let z = rules.entry(5, 5).as_complex();
    assert_eq!(z.re, 0.0);
    assert_eq!(z.im, 0.0);
}

#[test]
fn yaml_rules_later_entries_overwrite() {
    let yaml = vec![(2, vec![(2, yc("1", "0")), (2, yc("3", "0"))])];
    let rules = yaml_rules_to_universe_rules(&yaml).unwrap();
    assert_eq!(rules.entry(2, 2).as_complex().re, 3.0);
}

#[test]
fn yaml_rules_reject_bad_row() {
    let yaml = vec![(16, vec![(0, yc("1", "0"))])];
    assert!(matches!(
        yaml_rules_to_universe_rules(&yaml),
        Err(RuleError::InvalidRowIndex)
    ));
    let yaml = vec![(-1, vec![(0, yc("1", "0"))])];
    assert!(matches!(
        yaml_rules_to_universe_rules(&yaml),
        Err(RuleError::InvalidRowIndex)
    ));
}

#[test]
fn yaml_rules_reject_bad_column() {
    let yaml = vec![(0, vec![(16, yc("1", "0"))])];
    assert!(matches!(
        yaml_rules_to_universe_rules(&yaml),
        Err(RuleError::InvalidColumnIndex)
    ));
}

#[test]
fn yaml_rules_reject_bad_expression() {
    let yaml = vec![(0, vec![(0, yc("1+", "0"))])];
    assert!(matches!(
        yaml_rules_to_universe_rules(&yaml),
        Err(RuleError::BadExpression)
    ));
}

#[test]
fn fingerprint_is_sha256_of_sorted_cells() {
    // Big-endian two's-complement encoding of the sorted coordinates
    // (0,1), (1,2), hashed with SHA-256.
    let cells = vec![
        (Coordinates { x: 1, y: 2 }, false),
        (Coordinates { x: 0, y: 1 }, true),
    ];
    let d = fingerprint(&cells);
    let expected = "2bd073563e2113b1630b0bed27ede9e9352fc49b997bd32721d110a5639a3dbe";
    let hex: String = d.iter().map(|b| format!("{b:02x}")).collect();
    assert_eq!(hex, expected);
}

#[test]
fn fingerprint_ignores_order_and_flags() {
    let a = vec![
        (Coordinates { x: 1, y: 2 }, false),
        (Coordinates { x: 0, y: 1 }, false),
    ];
    let b = vec![
        (Coordinates { x: 0, y: 1 }, true),
        (Coordinates { x: 1, y: 2 }, true),
    ];
    assert_eq!(fingerprint(&a), fingerprint(&b));
}

#[test]
fn fingerprint_distinguishes_sets_and_handles_negatives() {
    let a = vec![(Coordinates { x: -1, y: -1 }, false)];
    let b = vec![(Coordinates { x: 1, y: 1 }, false)];
    assert_ne!(fingerprint(&a), fingerprint(&b));
    let hex: String = fingerprint(&a).iter().map(|x| format!("{x:02x}")).collect();
    assert_eq!(
        hex,
        "12a3ae445661ce5dee78d0650d33362dec29c4f82af05e7e57fb595bbbacf0ca"
    );
}
