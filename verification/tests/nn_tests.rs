use bolt::nn::error::Error;
use bolt::nn::init::{check_kaiming_rank, Rng, DEFAULT_STATE};
use bolt::nn::linear::check_linear_input;
use bolt::nn::state_dict::{plan_load_state_dict, BlobInfo, EntryInfo};
use bolt::nn::store::{
    check_new_entry, check_new_key, join_key, validate_leaf_name, validate_segment, Kind,
};

#[test]
fn rng_outputs_follow_xorshift_star() {
    let mut r = Rng::new(1);
    assert_eq!(r.next_u64(), 5180492295206395165);
    let mut z = Rng::new(0);
    assert_eq!(z.next_u64(), 973819730272012410);
    let mut d = Rng::new(DEFAULT_STATE);
    assert_eq!(d.next_u64(), 973819730272012410);
}

#[test]
fn rng_top_bits_are_the_float_draw_bits() {
    let mut r = Rng::new(1);
    assert_eq!(r.next_u24(), 4711630);
    assert_eq!(r.next_u24(), 11259814);
    let mut s = Rng::new(1);
    assert_eq!(s.next_u64() >> 40, 4711630);
}

#[test]
fn segments_and_keys() {
    assert!(validate_segment("fc1").is_ok());
    assert!(matches!(validate_segment(""), Err(Error::State(_))));
    match validate_segment("a.b") {
        Err(Error::State(msg)) => assert_eq!(msg, "'.' is reserved in name segment: a.b"),
        _ => panic!("expected a state error"),
    }
    assert!(matches!(validate_leaf_name("w.x"), Err(Error::State(_))));
    assert_eq!(join_key("", "weight"), "weight");
    assert_eq!(join_key("fc1", "weight"), "fc1.weight");
    assert_eq!(join_key("net.fc1", "bias"), "net.fc1.bias");
}

#[test]
fn new_entry_rules() {
    assert!(matches!(check_new_entry(true, &[2, 2]), Err(Error::State(_))));
    assert!(matches!(check_new_entry(false, &[2, 0]), Err(Error::Shape(_))));
    assert!(check_new_entry(false, &[2, 3]).is_ok());
    assert!(check_new_entry(false, &[]).is_ok());
}

#[test]
fn linear_input_rule() {
    assert!(check_linear_input(&[8, 784], 784).is_ok());
    match check_linear_input(&[8, 10], 784) {
        Err(Error::Shape(msg)) => assert_eq!(msg, "Linear: expected [batch, 784], got [8, 10]"),
        _ => panic!("expected a shape error"),
    }
    assert!(matches!(check_linear_input(&[784], 784), Err(Error::Shape(_))));
}

fn entry(key: &str, kind: Kind, shape: &[usize]) -> EntryInfo {
    EntryInfo { key: key.to_string(), kind, shape: shape.to_vec() }
}

fn blob(key: &str, target: &str, kind: Kind, shape: &[usize]) -> BlobInfo {
    BlobInfo { key: key.to_string(), target: target.to_string(), kind, shape: shape.to_vec() }
}

#[test]
fn plan_copies_matching_tensors() {
    let entries = vec![entry("p", Kind::Param, &[2]), entry("b", Kind::Buffer, &[2])];
    let expected = vec!["b".to_string(), "p".to_string()];
    let blobs = vec![blob("b", "b", Kind::Buffer, &[2]), blob("p", "p", Kind::Param, &[2])];
    let plan = plan_load_state_dict(&entries, &expected, &blobs, true);
    assert_eq!(plan.copies, vec![(0, 1), (1, 0)]);
    let report = plan.outcome.unwrap();
    assert!(report.missing.is_empty());
    assert!(report.unexpected.is_empty());
    assert!(report.mismatched.is_empty());
    assert!(report.kind_mismatched.is_empty());
}

#[test]
fn plan_reports_without_strict() {
    let entries = vec![entry("p", Kind::Param, &[3]), entry("q", Kind::Param, &[1])];
    let expected = vec!["p".to_string(), "q".to_string()];
    let blobs = vec![
        blob("p", "p", Kind::Param, &[2]),
        blob("q", "q", Kind::Buffer, &[1]),
        blob("z", "z", Kind::Param, &[1]),
    ];
    let plan = plan_load_state_dict(&entries, &expected, &blobs, false);
    assert!(plan.copies.is_empty());
    let report = plan.outcome.unwrap();
    assert_eq!(report.mismatched, vec![("p".to_string(), vec![3], vec![2])]);
    assert_eq!(report.kind_mismatched, vec![("q".to_string(), Kind::Param, Kind::Buffer)]);
    assert_eq!(report.unexpected, vec!["z".to_string()]);
    assert!(report.missing.is_empty());
    let strict = plan_load_state_dict(&entries, &expected, &blobs, true);
    assert!(matches!(strict.outcome, Err(Error::State(_))));
}

#[test]
fn plan_reports_missing_keys_in_order() {
    let entries = vec![entry("a", Kind::Param, &[1]), entry("b", Kind::Param, &[1])];
    let expected = vec!["a".to_string(), "b".to_string()];
    let plan = plan_load_state_dict(&entries, &expected, &[], false);
    assert_eq!(plan.outcome.unwrap().missing, vec!["a".to_string(), "b".to_string()]);
}

#[test]
fn plan_refuses_duplicate_targets() {
    let entries = vec![entry("x", Kind::Param, &[1])];
    let expected = vec!["x".to_string()];
    let blobs = vec![blob("a", "x", Kind::Param, &[1]), blob("b", "x", Kind::Param, &[1])];
    let plan = plan_load_state_dict(&entries, &expected, &blobs, false);
    assert_eq!(plan.copies, vec![(0, 0)]);
    match plan.outcome {
        Err(Error::State(msg)) => {
            assert!(msg.contains("duplicate key"));
            assert_eq!(msg, "load_state_dict: rename produced duplicate key: x");
        }
        _ => panic!("expected a state error"),
    }
}

#[test]
fn plan_renamed_tensor_loads_into_target() {
    let entries = vec![entry("new", Kind::Param, &[2])];
    let expected = vec!["new".to_string()];
    let blobs = vec![blob("old", "new", Kind::Param, &[2])];
    let plan = plan_load_state_dict(&entries, &expected, &blobs, true);
    assert_eq!(plan.copies, vec![(0, 0)]);
    assert!(plan.outcome.is_ok());
}

#[test]
fn strict_failure_still_loads_matching_tensors() {
    let entries = vec![entry("p", Kind::Param, &[2]), entry("q", Kind::Param, &[1])];
    let expected = vec!["p".to_string(), "q".to_string()];
    let blobs = vec![blob("p", "p", Kind::Param, &[2])];
    let plan = plan_load_state_dict(&entries, &expected, &blobs, true);
    assert_eq!(plan.copies, vec![(0, 0)]);
    match plan.outcome {
        Err(Error::State(msg)) => {
            assert!(msg.starts_with("strict load failed: "));
            assert!(msg.contains("missing: [\"q\"]"));
        }
        _ => panic!("expected a state error"),
    }
}

#[test]
fn store_errors_carry_values() {
    match check_new_entry(true, &[2, 2]) {
        Err(Error::State(m)) => assert_eq!(m, "store is sealed; cannot create new parameters"),
        _ => panic!("expected a state error"),
    }
    match check_new_entry(false, &[2, 0, 3]) {
        Err(Error::Shape(m)) => assert_eq!(m, "zero dimension in shape [2, 0, 3]"),
        _ => panic!("expected a shape error"),
    }
    match validate_segment("a.b") {
        Err(Error::State(m)) => assert_eq!(m, "'.' is reserved in name segment: a.b"),
        _ => panic!("expected a state error"),
    }
}

#[test]
fn new_keys_are_taken_once_per_kind() {
    let taken = vec!["fc1.bias".to_string(), "fc1.weight".to_string()];
    assert!(check_new_key(Kind::Param, &"fc2.weight".to_string(), &taken).is_ok());
    match check_new_key(Kind::Param, &"fc1.weight".to_string(), &taken) {
        Err(Error::State(m)) => assert_eq!(m, "duplicate param key: fc1.weight"),
        _ => panic!("expected a state error"),
    }
    match check_new_key(Kind::Buffer, &"fc1.bias".to_string(), &taken) {
        Err(Error::State(m)) => assert_eq!(m, "duplicate buffer key: fc1.bias"),
        _ => panic!("expected a state error"),
    }
    assert!(check_new_key(Kind::Buffer, &"x".to_string(), &[]).is_ok());
}

#[test]
fn kaiming_needs_two_dimensions() {
    assert!(check_kaiming_rank(&[784, 128]).is_ok());
    assert!(check_kaiming_rank(&[2, 3, 4]).is_ok());
    for shape in [&[][..], &[10][..]] {
        match check_kaiming_rank(shape) {
            Err(Error::State(m)) => assert_eq!(m, "kaiming_uniform expects at least 2D weight"),
            _ => panic!("expected a state error"),
        }
    }
}
