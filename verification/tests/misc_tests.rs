use slimetools::config::{is_enabled, is_full, TerminalMode};
use slimetools::slime_chunk::{compute_fx, compute_fz, is_slime_chunk_fast, get_random_seed, is_slime_chunk as chunk_check, is_slime_chunk_biased, is_slime_chunk_scalar};
use slimetools::slime_lib::is_slime_chunk;
use slimetools::stats::Stats;
use slimetools::text::{int_text_length, int_to_string};
use slimetools::timer::Timer;

#[test]
fn thousand_separators() {
    assert_eq!(Stats::add_thousand_separator("1234567.89"), "1,234,567.89");
    assert_eq!(Stats::add_thousand_separator("123"), "123");
    assert_eq!(Stats::add_thousand_separator("1000"), "1,000");
    assert_eq!(Stats::add_thousand_separator("0.00"), "0.00");
    assert_eq!(Stats::add_thousand_separator("-1234"), "-1,234");
    assert_eq!(Stats::add_thousand_separator("-123"), "-,123");
    assert_eq!(Stats::add_thousand_separator("1000."), "1,000");
    assert_eq!(Stats::add_thousand_separator("1234.5.6"), "1,234.5");
    assert_eq!(Stats::add_thousand_separator(""), "");
}

#[test]
fn stats_keep_their_values() {
    let mut t = Timer::new();
    t.start_stage();
    t.end_preprocess();
    t.start_stage();
    t.end_calculation();
    t.start_stage();
    t.end_output();
    t.end_total();
    let times = t.times();
    assert!(times.preprocess <= times.total);
    assert!(times.output <= times.total);
    let s = Stats::new(times, 12345, 7);
    assert_eq!(s.total_blocks(), 12345);
    assert_eq!(s.match_count(), 7);
    assert_eq!(s.times().total, times.total);
}

#[test]
fn new_timer_has_empty_stages() {
    let t = Timer::new();
    let times = t.times();
    assert_eq!(times.preprocess, std::time::Duration::ZERO);
    assert_eq!(times.total, times.calculation);
}

#[test]
fn terminal_modes() {
    assert!(!is_enabled(TerminalMode::Off));
    assert!(is_enabled(TerminalMode::Basic));
    assert!(is_enabled(TerminalMode::Full));
    assert!(!is_full(TerminalMode::Basic));
    assert!(is_full(TerminalMode::Full));
}

#[test]
fn integer_text() {
    assert_eq!(int_to_string(0), "0");
    assert_eq!(int_to_string(-2147483648), "-2147483648");
    assert_eq!(int_to_string(20260627), "20260627");
    assert_eq!(int_text_length(-100), 4);
}

#[test]
fn slime_rule_known_chunks() {
    let seed = 20260627i64;
    assert!(is_slime_chunk(seed, 100, 200));
    assert!(is_slime_chunk(seed, 100, 100));
    assert!(is_slime_chunk(seed, 500, 500));
    assert!(!is_slime_chunk(seed, 0, 0));
    assert!(!is_slime_chunk(seed, -100, -100));
}

#[test]
fn slime_checks_agree_near_the_origin() {
    let seed = 987654321i64;
    for x in -30..30 {
        for z in -22..=22 {
            let reference = is_slime_chunk(seed, x, z);
            assert_eq!(is_slime_chunk_biased(seed, x, z), reference);
            assert_eq!(is_slime_chunk_scalar(seed, x, z), chunk_check(seed, x, z));
        }
    }
}

#[test]
fn random_seed_formula() {
    // seed + x*x*4987142 + x*5947611 + z*z*4392871 + z*389711, then ^ 987234911
    let expected = (12345i64 + 4 * 4987142 + 2 * 5947611 + 9 * 4392871 + 3 * 389711) ^ 987234911;
    assert_eq!(get_random_seed(12345, 2, 3), expected);
}

#[test]
fn grouping_only_adds_commas() {
    for s in ["1", "12", "123", "1234", "98765432101234"] {
        let g = Stats::add_thousand_separator(s);
        assert_eq!(g.replace(',', ""), s);
    }
    assert_eq!(Stats::add_thousand_separator("98765432101234"), "98,765,432,101,234");
}

#[test]
fn fast_check_agrees_with_the_rule() {
    let seed = -4172144997902289642i64;
    for x in [-1_000_000, -777, 0, 5, 31_000_000] {
        for z in [-46340, -1000, -1, 0, 3, 46340] {
            assert_eq!(is_slime_chunk_fast(compute_fx(x), compute_fz(z), seed), is_slime_chunk(seed, x, z), "x={}, z={}", x, z);
        }
    }
}

#[test]
fn random_seed_widens_the_square_of_z() {
    // (long)(z*z) * 4392871, not an int product
    assert_eq!(get_random_seed(0, 0, 100), 43967681100i64 ^ 987234911);
    assert_eq!(get_random_seed(25303508018, 0, 0), 25214903917);
}

#[test]
fn fast_module_agrees_with_the_rule_far_out() {
    assert!(is_slime_chunk(0, 0, 25));
    assert!(is_slime_chunk_biased(0, 0, 25));
    assert!(chunk_check(0, 0, 25));
    for z in [-1_000_000, -46341, 25, 46341, 999_999] {
        for x in [-3, 0, 77] {
            assert_eq!(is_slime_chunk_biased(11, x, z), is_slime_chunk(11, x, z));
        }
    }
}
