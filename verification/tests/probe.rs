use browser_rnd::engines::v8_libc;
use browser_rnd::probe::{
    bit_ones, delta_gcd, duplicates, lcg_fit, lcg_holds, rand_pair_search, second_order_fit, second_order_holds,
    srand_hits, RandPair, SecondOrder,
};

fn lcg_run(m: u64, a: u64, c: u64, s: u64, n: usize) -> Vec<u64> {
    let mut out = vec![s];
    while out.len() < n {
        let x = *out.last().unwrap();
        out.push(((x as u128 * a as u128 + c as u128) % m as u128) as u64);
    }
    out
}

#[test]
fn window_determinants_give_the_lcg_modulus() {
    // MINSTD: N' = 16807 N mod (2^31 - 1).
    let n = lcg_run(2_147_483_647, 16807, 0, 12345, 200);
    let (g, used) = delta_gcd(&n, u64::MAX);
    assert_eq!(used, 197);
    assert_eq!(g, 2_147_483_647);
    // Only windows of values below `half` count.
    let (_, some) = delta_gcd(&n, 1 << 30);
    assert!(some < used);
}

#[test]
fn power_of_two_modulus_divides_the_gcd() {
    let n = lcg_run(1 << 20, 1_103_515_245 % (1 << 20), 12345, 777, 100);
    let (g, _) = delta_gcd(&n, u64::MAX);
    assert_eq!(g % (1 << 20), 0);
    // A run that no LCG made gives no common modulus this large.
    let (g2, _) = delta_gcd(&[3, 1, 4, 1, 5, 9, 2, 6, 5, 3, 5, 8, 9, 7, 9], u64::MAX);
    assert!(g2 < 1 << 20);
}

#[test]
fn srand_seed_found_back_from_state() {
    let seed: u32 = 1_700_000_000;
    let mut st = seed;
    for _ in 0..5000 {
        st = st.wrapping_mul(214013).wrapping_add(2531011);
    }
    let hits = srand_hits(st, seed as u64 + 3, 2_000_000, 8);
    assert!(hits.contains(&(seed as u64, 5000)));
    assert!(hits.windows(2).all(|w| w[0].1 < w[1].1));
    assert!(hits.iter().all(|&(s, _)| s + 600 >= seed as u64 + 3 && s <= seed as u64 + 8));
    // A step back undoes a step.
    assert_eq!(v8_libc::prev(st.wrapping_mul(214013).wrapping_add(2531011)), st);
    assert!(srand_hits(st, seed as u64 + 3, 2_000_000, 0).is_empty());
}

#[test]
fn bit_statistics() {
    let n = [0b101u64, 0b100, 0b001, 0b101, 7, 0b100];
    assert_eq!(bit_ones(&n, 0), 4);
    assert_eq!(bit_ones(&n, 2), 5);
    assert_eq!(bit_ones(&n, 3), 0);
    assert_eq!(duplicates(&n), 2);
    assert_eq!(duplicates(&[]), 0);
}

#[test]
fn full_state_lcg_fit() {
    let md = 1u64 << 40;
    let (m, a) = (25_214_903_917 % md, 11);
    let n = lcg_run(md, m, a, 0x1234_5678, 300);
    let (fm, fa, at) = lcg_fit(&n, 40, 1, u64::MAX, n.len() - 2).expect("fit");
    assert_eq!((fm, fa), (m, a));
    // The fit is taken at the first base whose first difference is odd.
    assert!(at < 3);
    assert_eq!(lcg_holds(&n, 40, 1, u64::MAX, fm, fa), (299, 299));
    // Two steps apart the differences are all even: nothing to invert, though
    // the squared step carries every pair.
    assert_eq!(lcg_fit(&n, 40, 2, u64::MAX, 200), None);
    let m2 = ((m as u128 * m as u128) % md as u128) as u64;
    let a2 = ((a as u128 * (m as u128 + 1)) % md as u128) as u64;
    assert_eq!(lcg_holds(&n, 40, 2, u64::MAX, m2, a2), (298, 298));
    // Even differences everywhere leave nothing to invert.
    assert_eq!(lcg_fit(&[2, 4, 6, 8], 40, 1, u64::MAX, 2), None);
}

#[test]
fn second_order_recurrence_fit() {
    let md: u128 = 1 << 32;
    let (a, b, c) = (69069u128, 1_664_525u128, 12345u128);
    let mut n: Vec<u64> = vec![1, 2];
    while n.len() < 60 {
        let k = n.len();
        let v = (a * n[k - 1] as u128 + b * n[k - 2] as u128 + c) % md;
        n.push(v as u64);
    }
    match second_order_fit(&n, 32, u64::MAX) {
        SecondOrder::Fit { a: fa, b: fb, c: fc, at } => {
            assert_eq!((fa as u128, fb as u128, fc as u128), (a, b, c));
            assert_eq!(second_order_holds(&n, 32, u64::MAX, fa, fb, fc, at), (58 - at, 58 - at));
        }
        SecondOrder::Singular { at } => panic!("singular at {at}"),
        SecondOrder::NoRun => panic!("no run"),
    }
    assert!(matches!(second_order_fit(&n, 32, 0), SecondOrder::NoRun));
    assert!(matches!(second_order_fit(&[0, 0, 0, 0, 0], 32, u64::MAX), SecondOrder::Singular { at: 0 }));
}

#[test]
fn rand_pair_search_finds_chrome1_state() {
    let state: u32 = 0x0bad_f00d;
    let n = v8_libc::generate(state, 200);
    let p = RandPair { mult: 214013, add: 2531011, shift: 16, bits: 15, first_high: false };
    let (s1, ok) = rand_pair_search(&n, p, 100).expect("found");
    // Bit 31 of a state never reaches the bits a call returns, so the first of
    // the two states that differ there is found.
    let true_s1 = state.wrapping_mul(214013).wrapping_add(2531011) as u64;
    assert_eq!(s1, true_s1 & 0x7fff_ffff);
    assert_eq!(ok, 199);
    // The other call order does not reproduce the run.
    assert_eq!(rand_pair_search(&n, RandPair { first_high: true, ..p }, 100), None);
}
