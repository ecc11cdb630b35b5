use soundforge::agg::{Agg, Arith};

fn ops() -> Arith<impl Fn(u64, u64) -> u64, impl Fn(u32) -> (u64, u64)> {
    Arith {
        add: |a: u64, b: u64| (f64::from_bits(a) + f64::from_bits(b)).to_bits(),
        lift: |v: u32| {
            let x = f32::from_bits(v) as f64;
            (x.to_bits(), (x * x).to_bits())
        },
    }
}

fn bits(samples: &[f32]) -> Vec<u32> {
    samples.iter().map(|v| v.to_bits()).collect()
}

fn fold(samples: &[f32], start: u64) -> Agg {
    Agg::from_samples(&bits(samples), start, &ops())
}

#[test]
fn identity_is_neutral() {
    let a = fold(&[0.1, -0.2, 0.3], 0);
    assert_eq!(Agg::identity().combine(&a, &ops()), a);
    assert_eq!(a.combine(&Agg::identity(), &ops()), a);
}

#[test]
fn folding_matches_pairwise_combine() {
    let s = [0.5f32, -0.5, 0.25, -0.75, 0.0, 0.9];
    let whole = fold(&s, 0);
    // Split at every point; combined halves must equal the whole.
    for split in 0..=s.len() {
        let left = fold(&s[..split], 0);
        let right = fold(&s[split..], split as u64);
        assert_eq!(left.combine(&right, &ops()), whole, "split at {split}");
    }
}

#[test]
fn min_max_positions_are_first_occurrence() {
    let s = [0.2f32, -0.4, 0.6, -0.4, 0.6];
    let a = fold(&s, 0);
    assert_eq!(f32::from_bits(a.max), 0.6);
    assert_eq!(a.max_pos, 2); // first 0.6
    assert_eq!(f32::from_bits(a.min), -0.4);
    assert_eq!(a.min_pos, 1); // first -0.4
}

#[test]
fn zero_crossings_skip_zeros() {
    // +, +, 0, -, +  => flips at the -, then back at +  => 2 crossings.
    let s = [0.3f32, 0.7, 0.0, -0.2, 0.5];
    let a = fold(&s, 0);
    assert_eq!(a.zero_crossings, 2);
}

#[test]
fn boundary_crossing_counted_once_when_combining() {
    // [+, +] then [-, -]: one crossing exactly at the boundary.
    let left = fold(&[0.3f32, 0.7], 0);
    let right = fold(&[-0.2f32, -0.4], 2);
    assert_eq!(left.zero_crossings, 0);
    assert_eq!(right.zero_crossings, 0);
    assert_eq!(left.combine(&right, &ops()).zero_crossings, 1);
}

#[test]
fn a_single_sample_is_its_own_extremes() {
    let a = Agg::from_sample((-0.5f32).to_bits(), 7, &ops());
    assert_eq!(a.n, 1);
    assert_eq!(f64::from_bits(a.sum), -0.5);
    assert_eq!(f64::from_bits(a.sum_sq), 0.25);
    assert_eq!((a.min_pos, a.max_pos), (7, 7));
    assert_eq!((a.first_nz_sign, a.last_nz_sign), (-1, -1));
}

#[test]
fn the_empty_run_has_infinite_extremes() {
    let e = Agg::identity();
    assert_eq!(e.n, 0);
    assert_eq!(f32::from_bits(e.min), f32::INFINITY);
    assert_eq!(f32::from_bits(e.max), f32::NEG_INFINITY);
    assert_eq!(fold(&[], 5), e);
}

#[test]
fn an_infinite_sample_keeps_its_place_beside_the_empty_run() {
    let o = ops();
    for v in [f32::INFINITY, f32::NEG_INFINITY, -0.0, 0.5] {
        let x = Agg::from_sample(v.to_bits(), 5, &o);
        assert_eq!(Agg::identity().combine(&x, &o), x);
        assert_eq!(x.combine(&Agg::identity(), &o), x);
        let run = fold(&[v], 5);
        assert_eq!(run, Agg { sum: run.sum, sum_sq: run.sum_sq, ..x });
        assert_eq!(f64::from_bits(run.sum), f64::from_bits(x.sum));
    }
    // A run is added up from zero.
    assert_eq!(fold(&[-0.0], 5).sum, 0);
    // Only the identity is neutral: an aggregate without samples that is none is combined like any other.
    let odd = Agg { min: 0, min_pos: 9, ..Agg::identity() };
    let x = Agg::from_sample(1.0f32.to_bits(), 5, &o);
    assert_eq!(odd.combine(&x, &o), Agg { min: 0, min_pos: 9, ..x });
    let x = Agg::identity().combine(&Agg::from_sample(f32::INFINITY.to_bits(), 5, &o), &o);
    assert_eq!((x.min_pos, x.max_pos), (5, 5));
    // Of two infinities the first is the minimum.
    let a = fold(&[f32::INFINITY, f32::INFINITY], 3);
    assert_eq!((f32::from_bits(a.min), a.min_pos, a.max_pos), (f32::INFINITY, 3, 3));
}

#[test]
fn a_run_without_numbers_has_infinite_extremes() {
    let a = fold(&[f32::NAN, f32::NAN], 9);
    assert_eq!(a.n, 2);
    assert_eq!((f32::from_bits(a.min), a.min_pos), (f32::INFINITY, 0));
    assert_eq!((f32::from_bits(a.max), a.max_pos), (f32::NEG_INFINITY, 0));
    // What follows it sets the extremes.
    let b = a.combine(&fold(&[0.5], 11), &ops());
    assert_eq!((f32::from_bits(b.min), b.min_pos, f32::from_bits(b.max), b.max_pos), (0.5, 11, 0.5, 11));
}

#[test]
fn combining_is_associative() {
    let a = fold(&[0.5, -0.25], 0);
    let b = fold(&[0.0, 0.0], 2);
    let c = fold(&[0.125, 0.75, -1.0], 4);
    let o = ops();
    assert_eq!(a.combine(&b, &o).combine(&c, &o), a.combine(&b.combine(&c, &o), &o));
}

#[test]
fn what_is_no_number_sets_no_extreme() {
    let a = fold(&[f32::NAN, 0.25, f32::NAN, -0.5], 0);
    assert_eq!((f32::from_bits(a.min), a.min_pos), (-0.5, 3));
    assert_eq!((f32::from_bits(a.max), a.max_pos), (0.25, 1));
    assert_eq!(a.zero_crossings, 1);
}

#[test]
fn silence_has_no_crossings() {
    let a = fold(&[0.0, -0.0, 0.0], 0);
    assert_eq!(a.zero_crossings, 0);
    assert_eq!((a.first_nz_sign, a.last_nz_sign), (0, 0));
}
