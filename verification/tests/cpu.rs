use buran::config::cpu::{auto_worker_count, cgroup_cpu_quota, cores_from_quota};

#[test]
fn auto_worker_count_is_at_least_one() {
    assert!(auto_worker_count(0, None) >= 1);
}

#[test]
fn cores_round_up_fractional_quota() {
    assert_eq!(cores_from_quota(100_000, 100_000), Some(1)); // 1.0 core
    assert_eq!(cores_from_quota(150_000, 100_000), Some(2)); // 1.5 -> 2
    assert_eq!(cores_from_quota(250_000, 100_000), Some(3)); // 2.5 -> 3
    assert_eq!(cores_from_quota(50_000, 100_000), Some(1)); // 0.5 -> floor 1
}

#[test]
fn cores_reject_degenerate_values() {
    assert_eq!(cores_from_quota(0, 100_000), None);
    assert_eq!(cores_from_quota(100_000, 0), None);
}

#[test]
fn quota_is_read_from_either_hierarchy() {
    assert_eq!(cgroup_cpu_quota(Some("150000 100000\n"), None, None), Some(2));
    assert_eq!(cgroup_cpu_quota(Some("max 100000\n"), Some("200000"), Some("100000")), None);
    assert_eq!(cgroup_cpu_quota(None, Some("200000\n"), Some("100000\n")), Some(2));
    assert_eq!(cgroup_cpu_quota(None, Some("-1\n"), Some("100000\n")), None);
    assert_eq!(cgroup_cpu_quota(None, None, None), None);
}

#[test]
fn workers_are_the_smaller_of_cores_and_quota() {
    assert_eq!(auto_worker_count(8, Some(3)), 3);
    assert_eq!(auto_worker_count(2, Some(3)), 2);
    assert_eq!(auto_worker_count(4, None), 4);
}
