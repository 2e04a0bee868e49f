use collatz::collatz::{canonicalize, collatz_step, find_cycle, CycleError};
use collatz::magnitude::Unsigned;
use collatz::parse::{parse_number, Args, ArgsError};
use collatz::registry::{count_of, Registry};
use collatz::sweep::{extended_collatz, modulus, process_collatz, SweepError};

fn u(v: u64) -> Unsigned {
    Unsigned::from_u64(v)
}

fn argv(words: &[&str]) -> Vec<Vec<u8>> {
    words.iter().map(|w| w.as_bytes().to_vec()).collect()
}

#[test]
fn test_collatz_step() {
    let n = u(3);
    assert_eq!(collatz_step(&n, 5, 2, 4), Some(u(1)));
}

#[test]
fn test_extended_collatz() {
    let mut cycle_mins = vec![u(1)];
    let mut registry = Registry::new();
    registry.insert_if_absent(cycle_mins.clone());
    extended_collatz(3, 3, 2, 2, 1000, &mut cycle_mins, &mut registry).unwrap();
    assert_eq!(cycle_mins.len(), 2);
    assert_eq!(registry.len(), 1);
}

#[test]
fn test_args_parse() {
    let args = Args::parse(&argv(&["test", "-n", "100", "-s", "3", "-e", "5", "--write-table"])).unwrap();
    assert_eq!(args.n, 100);
    assert_eq!(args.a_start, 3);
    assert_eq!(args.a_end, 5);
    assert!(args.write_table);
    assert!(!args.write_cycle);
}

#[test]
fn args_long_forms_and_modulus_base() {
    let args = Args::parse(&argv(&[
        "collatz", "--n", "7", "--start", "1", "--end", "9", "--p", "3", "--write-cycle",
    ]))
    .unwrap();
    assert_eq!(args.n, 7);
    assert_eq!(args.a_start, 1);
    assert_eq!(args.a_end, 9);
    assert_eq!(args.p, 3);
    assert!(!args.write_table);
    assert!(args.write_cycle);
}

#[test]
fn args_default_modulus_base_is_two() {
    let args = Args::parse(&argv(&["c", "-n", "1", "-s", "1", "-e", "1", "--write-table"])).unwrap();
    assert_eq!(args.p, 2);
}

#[test]
fn args_errors() {
    assert_eq!(
        Args::parse(&argv(&["c", "-x"])),
        Err(ArgsError::UnknownArgument(1))
    );
    assert_eq!(Args::parse(&argv(&["c", "-n"])), Err(ArgsError::MissingValue(1)));
    assert_eq!(
        Args::parse(&argv(&["c", "-n", "1x"])),
        Err(ArgsError::InvalidNumber(2))
    );
    assert_eq!(
        Args::parse(&argv(&["c", "-s", "1", "-e", "2", "--write-table"])),
        Err(ArgsError::MissingN)
    );
    assert_eq!(
        Args::parse(&argv(&["c", "-n", "1", "-e", "2", "--write-table"])),
        Err(ArgsError::MissingStart)
    );
    assert_eq!(
        Args::parse(&argv(&["c", "-n", "1", "-s", "2", "--write-table"])),
        Err(ArgsError::MissingEnd)
    );
    assert_eq!(
        Args::parse(&argv(&["c", "-n", "1", "-s", "2", "-e", "3"])),
        Err(ArgsError::NoReport)
    );
}

#[test]
fn number_parsing_limits() {
    assert_eq!(parse_number(&b"18446744073709551615".to_vec()), Some(u64::MAX));
    assert_eq!(parse_number(&b"18446744073709551616".to_vec()), None);
    assert_eq!(parse_number(&b"".to_vec()), None);
    assert_eq!(parse_number(&b"042".to_vec()), Some(42));
}

#[test]
fn step_rounds_up_then_strips_all_factors() {
    // 3 * 5 = 15, rounded up to 16, stripped to 1
    assert_eq!(collatz_step(&u(3), 5, 2, 2), Some(u(1)));
    // 7 * 3 = 21, rounded up to 22, stripped to 11
    assert_eq!(collatz_step(&u(7), 3, 2, 2), Some(u(11)));
    // 4 * 3 = 12 is already a multiple of 4; stripped to 3
    assert_eq!(collatz_step(&u(4), 3, 2, 4), Some(u(3)));
    // base 3: 2 * 4 = 8, rounded up to 9, stripped to 1
    assert_eq!(collatz_step(&u(2), 4, 3, 3), Some(u(1)));
}

#[test]
fn magnitude_widens_and_narrows_at_the_boundary() {
    let max = u(u64::MAX);
    let doubled = max.multiply_by_small(2).unwrap();
    assert_eq!(doubled, Unsigned::U128(2 * (u64::MAX as u128)));
    assert_eq!(doubled.divide_by_small(2), u(u64::MAX));
    let bumped = max.round_up_to_multiple(2).unwrap();
    assert_eq!(bumped, Unsigned::U128(u64::MAX as u128 + 1));
    assert!(max.less_than(&bumped));
    assert!(!bumped.less_than(&max));
    assert!(bumped.divide_by_small(2).equals(&u(1u64 << 63)));
    assert_eq!(Unsigned::from_u128(u128::MAX).multiply_by_small(2), None);
    assert_eq!(Unsigned::from_u128(u128::MAX).round_up_to_multiple(2), None);
    assert_eq!(Unsigned::from_u128(5), u(5));
    assert!(u(10).is_even());
    assert!(!u(7).is_even());
    assert!(u(9).is_divisible_by(3));
}

#[test]
fn step_agrees_across_the_representation_limit() {
    // (2^64 - 1) * 3 needs the wide representation; the result matches the
    // same computation done on u128 by hand.
    let n = u(u64::MAX);
    let wide = (u64::MAX as u128) * 3;
    let rounded = wide + (4 - wide % 4) % 4;
    let mut expected = rounded;
    while expected % 2 == 0 {
        expected /= 2;
    }
    assert_eq!(collatz_step(&n, 3, 2, 4), Some(Unsigned::from_u128(expected)));
}

#[test]
fn canonical_form_is_rotation_invariant() {
    let c1 = canonicalize(&vec![u(5), u(1), u(3)]);
    let c2 = canonicalize(&vec![u(3), u(5), u(1)]);
    let c3 = canonicalize(&vec![u(1), u(3), u(5)]);
    assert_eq!(c1, vec![u(1), u(3), u(5)]);
    assert_eq!(c1, c2);
    assert_eq!(c2, c3);
}

#[test]
fn find_cycle_of_three() {
    // 3 -> 9 -> 10 -> 5 -> 15 -> 16 -> 1 -> 3 -> 4 -> 1
    assert_eq!(find_cycle(&u(3), 3, 2, 2, 1000), Ok(vec![u(1)]));
}

#[test]
fn find_cycle_errors() {
    assert_eq!(find_cycle(&u(3), 3, 2, 2, 0), Err(CycleError::StepLimit));
    assert_eq!(
        find_cycle(&Unsigned::from_u128(u128::MAX - 2), 3, 2, 2, 1000),
        Err(CycleError::Overflow)
    );
}

#[test]
fn registry_dedups_two_starts() {
    let sweep = process_collatz(3, 3, 2, 1, 1000).unwrap();
    assert_eq!(sweep.starts, vec![1, 3]);
    assert_eq!(sweep.registry.len(), 1);
    let key = sweep.registry.keys()[0];
    assert_eq!(key, u(1));
    assert_eq!(count_of(&sweep.cycle_mins, &key), 2);
}

#[test]
fn reinsertion_keeps_one_entry() {
    let mut registry = Registry::new();
    let k1 = registry.insert_if_absent(vec![u(1), u(3), u(5)]);
    let k2 = registry.insert_if_absent(canonicalize(&vec![u(3), u(5), u(1)]));
    assert_eq!(k1, k2);
    assert_eq!(registry.len(), 1);
    assert_eq!(registry.cycles()[0], vec![u(1), u(3), u(5)]);
}

#[test]
fn registry_orders_by_key() {
    let mut registry = Registry::new();
    registry.insert_if_absent(vec![u(7)]);
    registry.insert_if_absent(vec![u(2), u(9)]);
    registry.insert_if_absent(vec![u(5)]);
    assert_eq!(registry.keys(), &vec![u(2), u(5), u(7)]);
    assert_eq!(registry.cycles()[0], vec![u(2), u(9)]);
}

#[test]
fn end_to_end_sweep_of_ten() {
    let sweep = process_collatz(3, 10, 2, 1, 1000).unwrap();
    assert_eq!(sweep.starts, vec![1, 3, 5, 7, 9]);
    assert_eq!(sweep.cycle_mins.len(), 5);
    assert_eq!(sweep.registry.keys(), &vec![u(1)]);
    assert_eq!(sweep.registry.cycles()[0], vec![u(1)]);
    assert_eq!(count_of(&sweep.cycle_mins, &u(1)), 5);
}

#[test]
fn sweep_is_deterministic() {
    let s1 = process_collatz(5, 40, 2, 2, 10000).unwrap();
    let s2 = process_collatz(5, 40, 2, 2, 10000).unwrap();
    assert_eq!(s1.starts, s2.starts);
    assert_eq!(s1.cycle_mins, s2.cycle_mins);
    assert_eq!(s1.registry.keys(), s2.registry.keys());
    assert_eq!(s1.registry.cycles(), s2.registry.cycles());
}

#[test]
fn sweep_errors() {
    assert_eq!(
        process_collatz(3, 10, 2, 64, 1000).err(),
        Some(SweepError::ModulusTooLarge)
    );
    assert_eq!(
        process_collatz(3, 10, 2, 1, 0).err(),
        Some(SweepError::Cycle(1, CycleError::StepLimit))
    );
}

#[test]
fn modulus_values() {
    assert_eq!(modulus(2, 0), Some(1));
    assert_eq!(modulus(3, 4), Some(81));
    assert_eq!(modulus(2, 63), Some(1u64 << 63));
    assert_eq!(modulus(2, 64), None);
}

#[test]
fn sweep_counts_per_cycle() {
    let sweep = process_collatz(3, 10, 2, 1, 1000).unwrap();
    assert_eq!(sweep.cycle_counts(), vec![5]);
    assert!(!sweep.has_several_cycles());
}

#[test]
fn sweep_with_several_cycles() {
    // a = 3, p = 2, e = 2: 1 -> 1 and 3 -> 3 are both fixed points
    let sweep = process_collatz(3, 10, 2, 2, 1000).unwrap();
    assert_eq!(sweep.starts, vec![1, 3, 5, 7, 9]);
    assert_eq!(sweep.cycle_mins, vec![u(1), u(3), u(1), u(3), u(3)]);
    assert_eq!(sweep.registry.keys(), &vec![u(1), u(3)]);
    assert_eq!(sweep.cycle_counts(), vec![2, 3]);
    assert!(sweep.has_several_cycles());
}

#[test]
fn two_element_cycle_is_canonical() {
    let sweep = process_collatz(5, 3, 2, 1, 1000).unwrap();
    assert_eq!(sweep.registry.cycles()[0], vec![u(1), u(3)]);
    assert_eq!(sweep.cycle_counts(), vec![2]);
}
