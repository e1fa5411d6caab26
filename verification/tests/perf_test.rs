use lib::perf_test::perf_range_test;

#[test]
fn perf_test() {
    perf_range_test();
}
