use lib::latency::LatencyCategory;

#[test]
fn category_strings_match_python() {
    assert_eq!(LatencyCategory::ComputeMatmul.as_str(), "compute_matmul");
    assert_eq!(LatencyCategory::Comm.as_str(), "comm");
}

#[test]
fn every_category_has_its_snake_case_name() {
    assert_eq!(LatencyCategory::Zero.as_str(), "zero");
    assert_eq!(LatencyCategory::Memory.as_str(), "memory");
    assert_eq!(LatencyCategory::ComputeFloat.as_str(), "compute_float");
    assert_eq!(LatencyCategory::ComputeTranscendental.as_str(), "compute_transcendental");
    assert_eq!(LatencyCategory::ComputeInt.as_str(), "compute_int");
}
