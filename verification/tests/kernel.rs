use ashta::cpu::CpuSet;
use ashta::diagnostics::{online_cpu_count, parse_cpu_list, selector_mode, KernelReadings, SystemReport};
use ashta::hugepages::{hugepage_dir, parse_sysfs_u64, HugepageStatus};
use ashta::sched::{fifo_priority_is_valid, Policy};

#[test]
fn cpu_set_single() {
    let s = CpuSet::single(3);
    assert_eq!(s.cpus(), &[3]);
    assert_eq!(s.len(), 1);
    assert!(!s.is_empty());
}

#[test]
fn cpu_set_range() {
    let s = CpuSet::range(0, 3);
    assert_eq!(s.cpus(), &[0, 1, 2, 3]);
    assert_eq!(s.len(), 4);
}

#[test]
fn cpu_set_is_empty() {
    let s = CpuSet::from_cpus(vec![]);
    assert!(s.is_empty());
}

#[test]
fn cpu_set_range_of_one() {
    assert_eq!(CpuSet::range(usize::MAX, usize::MAX).cpus(), &[usize::MAX]);
    assert_eq!(CpuSet::range(usize::MAX - 2, usize::MAX).len(), 3);
    let s = CpuSet::range(7, 7);
    assert_eq!(s.cpus(), &[7]);
    assert_eq!(CpuSet::from_cpus(vec![5, 1]).cpus(), &[5, 1]);
}

#[test]
fn parse_range() {
    assert_eq!(parse_cpu_list("0-3"), vec![0, 1, 2, 3]);
}

#[test]
fn parse_mixed() {
    assert_eq!(parse_cpu_list("0-1,3,5-6"), vec![0, 1, 3, 5, 6]);
}

#[test]
fn parse_single() {
    assert_eq!(parse_cpu_list("7"), vec![7]);
}

#[test]
fn parse_empty() {
    assert!(parse_cpu_list("").is_empty());
    assert!(parse_cpu_list("  ").is_empty());
}

#[test]
fn parse_cpu_list_edge_cases() {
    // Sysfs files end with a newline; parts are trimmed.
    assert_eq!(parse_cpu_list("2-3\n"), vec![2, 3]);
    assert_eq!(parse_cpu_list(" 1 , 4 "), vec![1, 4]);
    // A reversed range names nothing; malformed parts are skipped.
    assert!(parse_cpu_list("5-2").is_empty());
    assert_eq!(parse_cpu_list("x,3,1-y,,8"), vec![3, 8]);
    // Range ends are not trimmed around the dash.
    assert!(parse_cpu_list("1 - 2").is_empty());
    assert_eq!(parse_cpu_list("+4"), vec![4]);
}

#[test]
fn display_marks_unconfigured_as_warning() {
    let report = SystemReport {
        nr_hugepages_2mb: 0,
        transparent_hugepages: "always".to_string(),
        isolated_cpus: vec![],
        nohz_full_cpus: vec![],
        cpu_governors: vec![(0, "powersave".to_string())],
        perf_paranoid: 3,
    };
    let s = report.display();
    assert!(s.contains("!!"));
    assert!(s.contains("0 pages"));
}

#[test]
fn display_marks_tuned_as_ok() {
    let report = SystemReport {
        nr_hugepages_2mb: 512,
        transparent_hugepages: "madvise".to_string(),
        isolated_cpus: vec![2, 3],
        nohz_full_cpus: vec![2, 3],
        cpu_governors: vec![(0, "performance".to_string())],
        perf_paranoid: -1,
    };
    let s = report.display();
    assert!(s.contains("[OK]"));
    assert!(s.contains("512 pages"));
}

#[test]
fn display_exact_text() {
    let report = SystemReport {
        nr_hugepages_2mb: 512,
        transparent_hugepages: "madvise".to_string(),
        isolated_cpus: vec![2, 3],
        nohz_full_cpus: vec![],
        cpu_governors: vec![(0, "performance".to_string()), (1, "powersave".to_string())],
        perf_paranoid: -1,
    };
    let expected = [
        "=== Ashta-Kernel System Report ===\n",
        "  [OK] Hugepages 2MB       : 512 pages (1024 MiB)\n",
        "  [OK] Transparent HP      : madvise (recommended: madvise)\n",
        "  [OK] Isolated CPUs       : [2, 3]\n",
        "  [!!] nohz_full CPUs      : []\n",
        "  [OK] perf_event_paranoid : -1\n",
        "  [OK] CPU 0 governor     : performance\n",
        "  [!!] CPU 1 governor     : powersave\n",
    ]
    .concat();
    assert_eq!(report.display(), expected);
}

#[test]
fn hugepage_status_fields_consistent() {
    let s = HugepageStatus {
        page_size_kb: 2048,
        total: 128,
        free: 32,
        used: 96,
    };
    assert_eq!(s.used, s.total - s.free);
    assert_eq!(HugepageStatus::from_counts(2048, 128, 32), s);
}

#[test]
fn hugepage_used_saturates() {
    let s = HugepageStatus::from_counts(1_048_576, 4, 9);
    assert_eq!(s.used, 0);
    assert_eq!(s.page_size_kb, 1_048_576);
}

#[test]
fn hugepage_paths_and_counters() {
    assert_eq!(hugepage_dir(2048), "/sys/kernel/mm/hugepages/hugepages-2048kB");
    assert_eq!(parse_sysfs_u64("512\n"), Some(512));
    assert_eq!(parse_sysfs_u64("  0 "), Some(0));
    assert_eq!(parse_sysfs_u64("-1"), None);
    assert_eq!(parse_sysfs_u64(""), None);
    assert_eq!(parse_sysfs_u64("18446744073709551616"), None);
}

#[test]
fn fifo_priority_bounds() {
    assert!(!fifo_priority_is_valid(0));
    assert!(fifo_priority_is_valid(1));
    assert!(fifo_priority_is_valid(99));
    assert!(!fifo_priority_is_valid(100));
    assert!(!fifo_priority_is_valid(-5));
    assert_ne!(Policy::Fifo, Policy::RoundRobin);
}

#[test]
fn selector_mode_picks_the_bracketed_choice() {
    assert_eq!(selector_mode("always [madvise] never\n"), "madvise");
    assert_eq!(selector_mode("[always] madvise never"), "always");
    assert_eq!(selector_mode("  never \n"), "never");
    assert_eq!(selector_mode(""), "");
    assert_eq!(selector_mode("  \n"), "");
    assert_eq!(selector_mode("a [[x]] b"), "x");
    assert_eq!(selector_mode("[] b"), "");
}

#[test]
fn online_count_is_one_past_the_largest_cpu() {
    assert_eq!(online_cpu_count(Some("0-7\n")), 8);
    assert_eq!(online_cpu_count(Some("0,2,5")), 6);
    assert_eq!(online_cpu_count(Some("")), 1);
    assert_eq!(online_cpu_count(None), 1);
}

#[test]
fn report_from_readings() {
    let readings = KernelReadings {
        nr_hugepages_2mb: Some("64\n".to_string()),
        transparent_hugepage_enabled: Some("always [madvise] never\n".to_string()),
        isolated_cpus: Some("2-3\n".to_string()),
        nohz_full_cpus: None,
        scaling_governors: vec![(0, "performance\n".to_string()), (3, "powersave\n".to_string())],
        perf_event_paranoid: Some("-1\n".to_string()),
    };
    let r = SystemReport::from_readings(&readings);
    assert_eq!(r.nr_hugepages_2mb, 64);
    assert_eq!(r.transparent_hugepages, "madvise");
    assert_eq!(r.isolated_cpus, vec![2, 3]);
    assert!(r.nohz_full_cpus.is_empty());
    assert_eq!(r.cpu_governors, vec![(0, "performance".to_string()), (3, "powersave".to_string())]);
    assert_eq!(r.perf_paranoid, -1);
}

#[test]
fn report_from_missing_or_bad_readings() {
    let readings = KernelReadings {
        nr_hugepages_2mb: Some("lots".to_string()),
        transparent_hugepage_enabled: None,
        isolated_cpus: None,
        nohz_full_cpus: Some("\n".to_string()),
        scaling_governors: vec![],
        perf_event_paranoid: Some("2147483648".to_string()),
    };
    let r = SystemReport::from_readings(&readings);
    assert_eq!(r.nr_hugepages_2mb, 0);
    assert_eq!(r.transparent_hugepages, "unknown");
    assert!(r.isolated_cpus.is_empty());
    assert!(r.nohz_full_cpus.is_empty());
    assert!(r.cpu_governors.is_empty());
    assert_eq!(r.perf_paranoid, 3);
}

#[test]
fn cpu_lists_joined_by_a_comma_concatenate() {
    let joined = parse_cpu_list("0-2, 7 ,x,3-1,5");
    let mut parts = parse_cpu_list("0-2, 7 ");
    parts.extend(parse_cpu_list("x,3-1,5"));
    assert_eq!(joined, parts);
    assert_eq!(parse_cpu_list("3-1,x,5"), vec![5]);
    // White space, including non-ASCII spaces, is trimmed around parts.
    assert_eq!(parse_cpu_list("\u{3000}4\u{a0},\t6\n"), vec![4, 6]);
}
