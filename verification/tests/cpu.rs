use systop::cpuinfo::{parse_cpuinfo, CpuMessageVec};

#[test]
fn two_cores() {
    let blob = "processor\t: 0\nmodel name\t: Example CPU\ncpu MHz\t\t: 3400.000\ncache size\t: 512 KB\n\nprocessor\t: 1\nmodel name\t: Example CPU\ncpu MHz\t\t: 3500.000\ncache size\t: 512 KB\n";
    let cores = parse_cpuinfo(blob);
    assert_eq!(cores.len(), 2);
    assert_eq!(cores[0].processor, 0);
    assert_eq!(cores[1].processor, 1);
    assert_eq!(cores[0].name, " Example CPU");
    assert_eq!(cores[0].mhz, " 3400.000");
    assert_eq!(cores[1].mhz, " 3500.000");
    assert_eq!(cores[0].cache_size, " 512 KB");
    assert!(!cores[0].show_more);
}

#[test]
fn missing_fields_stay_unknown() {
    let cores = parse_cpuinfo("processor\t: 2\n");
    assert_eq!(cores.len(), 1);
    assert_eq!(cores[0].processor, 2);
    assert_eq!(cores[0].name, "UnKnown");
    assert_eq!(cores[0].mhz, "UnKnown");
    assert_eq!(cores[0].cache_size, "UnKnown");
}

#[test]
fn bad_processor_fails_the_record() {
    let cores = parse_cpuinfo("processor\t: x9\nmodel name\t: M\n");
    assert!(cores.is_empty());
}

#[test]
fn bad_core_is_skipped_others_kept() {
    let cores = parse_cpuinfo("processor\t: x9\n\nprocessor\t: 1\nmodel name\t: M\n");
    assert_eq!(cores.len(), 1);
    assert_eq!(cores[0].processor, 1);
    assert_eq!(cores[0].name, " M");
}

#[test]
fn missing_processor_defaults_to_zero() {
    let cores = parse_cpuinfo("model name\t: M\n");
    assert_eq!(cores.len(), 1);
    assert_eq!(cores[0].processor, 0);
}

#[test]
fn last_processor_line_decides() {
    let good_last = parse_cpuinfo("processor: x\nprocessor: 2\n");
    assert_eq!(good_last.len(), 1);
    assert_eq!(good_last[0].processor, 2);
    let bad_last = parse_cpuinfo("processor: 2\nprocessor: x\n");
    assert!(bad_last.is_empty());
}

#[test]
fn processor_value_spaces_removed() {
    let cores = parse_cpuinfo("processor : 1 2\n");
    assert_eq!(cores.len(), 1);
    assert_eq!(cores[0].processor, 12);
}

#[test]
fn empty_blob_gives_no_cores() {
    assert!(parse_cpuinfo("").is_empty());
}

#[test]
fn refresh_and_clear() {
    let mut v = CpuMessageVec::new();
    assert!(v.is_empty());
    v.refresh(Some("processor: 0\n\nprocessor: 1\n"));
    assert!(!v.is_empty());
    assert_eq!(v.iter().len(), 2);
    v.refresh(None);
    assert!(v.is_empty());
}

#[test]
fn carriage_return_kept_out_of_values() {
    let cores = parse_cpuinfo("processor\t: 0\r\ncpu MHz\t\t: 3400.000\r\n");
    assert_eq!(cores.len(), 1);
    assert_eq!(cores[0].mhz, " 3400.000");
}

#[test]
fn cpu_get_key_keeps_spaces() {
    assert_eq!(systop::cpuinfo::get_key("model name\t: AMD X"), " AMD X");
}
