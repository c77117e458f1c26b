use finiterain::flood::{calculate, rain_step, RainError};
use finiterain::rain::{calculate_extremes, calculate_water_currents};
use finiterain::rational::Rat;

fn whole(n: i64) -> Rat {
    Rat::from_integer(n)
}

fn ints(v: &[i64]) -> Vec<Rat> {
    v.iter().map(|&n| Rat::from_integer(n)).collect()
}

fn rain(total_time: Rat, landscape: &mut Vec<Rat>) {
    calculate(total_time, landscape).unwrap();
}

#[test]
fn test_calculate_extremes() {
    {
        let landscape = vec![whole(2)];
        let (maximas, minimas) = calculate_extremes(&landscape);
        assert_eq!(&maximas[..], &[0..0, 1..1,]);
        assert_eq!(&minimas[..], &[0..1]);
    }

    {
        let landscape = ints(&[3, 1, 6, 4, 8, 9]);
        let (maximas, minimas) = calculate_extremes(&landscape);
        assert_eq!(&maximas[..], &[0..0, 2..3, 6..6,]);
        assert_eq!(&minimas[..], &[1..2, 3..4,]);
    }

    {
        let landscape = ints(&[3, 1, 6, 2, 2, 2, 8, 9]);
        let (maximas, minimas) = calculate_extremes(&landscape);
        assert_eq!(&maximas[..], &[0..0, 2..3, 8..8,]);
        assert_eq!(&minimas[..], &[1..2, 3..6,]);
    }
}

#[test]
fn test_calculate() {
    {
        let mut landscape = vec![whole(1)];
        rain(whole(10), &mut landscape);
        assert_eq!(&landscape[..], &[whole(11)]);
    }
    {
        let mut landscape = ints(&[5, 5, 5]);
        rain(whole(11), &mut landscape);
        assert_eq!(&landscape[..], &[whole(16), whole(16), whole(16)]);
    }
    {
        let mut landscape = ints(&[1, 5, 5]);
        rain(whole(1), &mut landscape);
        assert_eq!(&landscape[..], &[whole(4), whole(5), whole(5)]);
    }
    {
        let mut landscape = ints(&[1, 5, 5]);
        rain(whole(2), &mut landscape);
        assert_eq!(&landscape[..], &[Rat::new(17, 3), Rat::new(17, 3), Rat::new(17, 3)]);
    }
    {
        let mut landscape = ints(&[1, 9, 1]);
        rain(whole(1), &mut landscape);
        assert_eq!(&landscape[..], &[Rat::new(5, 2), whole(9), Rat::new(5, 2)]);
    }
    {
        let mut landscape = ints(&[3, 1, 6, 4, 8, 9]);
        rain(Rat::new(1, 2), &mut landscape);
        assert_eq!(
            &landscape[..],
            &[whole(3), Rat::new(9, 4), whole(6), Rat::new(23, 4), whole(8), whole(9)]
        );
    }
    {
        let mut landscape = ints(&[3, 1, 6, 4, 8, 9]);
        rain(Rat::new(4, 7), &mut landscape);
        assert_eq!(
            &landscape[..],
            &[whole(3), Rat::new(17, 7), whole(6), whole(6), whole(8), whole(9)]
        );
    }
    {
        let mut landscape = ints(&[3, 1, 6, 4, 8, 9]);
        rain(Rat::new(2, 3), &mut landscape);
        assert_eq!(&landscape[..], &ints(&[3, 3, 6, 6, 8, 9])[..]);
    }
    {
        let mut landscape = ints(&[3, 1, 6, 4, 8, 9]);
        rain(Rat::new(5, 3), &mut landscape);
        assert_eq!(&landscape[..], &ints(&[6, 6, 6, 6, 8, 9])[..]);
    }
    {
        let mut landscape = ints(&[3, 1, 6, 4, 8, 9]);
        rain(whole(3), &mut landscape);
        assert_eq!(&landscape[..], &ints(&[8, 8, 8, 8, 8, 9])[..]);
    }
    {
        let mut landscape = ints(&[3, 1, 6, 4, 8, 9]);
        rain(Rat::new(23, 6), &mut landscape);
        assert_eq!(&landscape[..], &ints(&[9, 9, 9, 9, 9, 9])[..]);
    }
    {
        let mut landscape = ints(&[3, 1, 6, 4, 8, 9]);
        // 23/6 + 11
        let total = Rat::new(23 + 11 * 6, 6);
        rain(total, &mut landscape);
        assert_eq!(&landscape[..], &ints(&[20, 20, 20, 20, 20, 20])[..]);
    }
}

#[test]
fn it_works() {
    assert_eq!(2 + 2, 4);
}

// ---------------------------------------------------------------------------

fn total(l: &[Rat]) -> (i128, i128) {
    // Exact sum as a fraction, for checking conservation on small values.
    let mut num: i128 = 0;
    let mut den: i128 = 1;
    for r in l {
        num = num * r.den as i128 + r.num as i128 * den;
        den *= r.den as i128;
    }
    (num, den)
}

#[test]
fn rain_conserves_water_example() {
    let start = ints(&[3, 1, 6, 4, 8, 9]);
    let mut landscape = start.clone();
    rain(Rat::new(5, 7), &mut landscape);
    let (n0, d0) = total(&start);
    let (n1, d1) = total(&landscape);
    // sum after == sum before + 6 * 5/7
    assert_eq!(n1 * d0 * 7, (n0 * 7 + 6 * 5 * d0) * d1);
    for (a, b) in start.iter().zip(landscape.iter()) {
        assert!(a.num as i128 * b.den as i128 <= b.num as i128 * a.den as i128);
    }
}

#[test]
fn rain_zero_time_changes_nothing() {
    let mut landscape = ints(&[4, 2, 7]);
    rain(whole(0), &mut landscape);
    assert_eq!(landscape, ints(&[4, 2, 7]));
}

#[test]
fn rain_negative_time_changes_nothing() {
    let mut landscape = ints(&[4, 2, 7]);
    rain(whole(-1), &mut landscape);
    assert_eq!(landscape, ints(&[4, 2, 7]));
}

#[test]
fn rain_above_wall_has_no_basin() {
    let mut landscape = vec![whole(8589934591)];
    assert_eq!(calculate(whole(1), &mut landscape), Err(RainError::NoBasin));
}

#[test]
fn rain_reaching_wall_stops() {
    // The single segment rises by the wall height first, then finds no basin.
    let mut landscape = vec![whole(1)];
    assert_eq!(calculate(whole(8589934591), &mut landscape), Err(RainError::NoBasin));
    assert_eq!(landscape, vec![whole(8589934591)]);
}

#[test]
fn rain_overflow_is_reported() {
    let mut landscape = vec![whole(i64::MAX), whole(-i64::MAX), whole(i64::MAX)];
    assert_eq!(calculate(whole(1), &mut landscape), Err(RainError::Overflow));
}

#[test]
fn rain_step_fills_first_basin() {
    let mut landscape = ints(&[3, 1, 6, 4, 8, 9]);
    let step = rain_step(whole(10), &mut landscape).unwrap();
    // The right basin (4, current 3 + 1/2) fills 2 in 4/7; the left one
    // (1, current 2 + 1/2 = 5/2 ... ) needs more.
    assert_eq!(step, Rat::new(4, 7));
    assert_eq!(landscape, vec![whole(3), Rat::new(17, 7), whole(6), whole(6), whole(8), whole(9)]);
}

#[test]
fn extremes_with_plateaus_and_edges() {
    let landscape = ints(&[1, 1, 5, 5, 2, 7, 7, 3]);
    let (maximas, minimas) = calculate_extremes(&landscape);
    assert_eq!(maximas, vec![0..0, 2..4, 5..7, 8..8]);
    assert_eq!(minimas, vec![0..2, 4..5, 7..8]);
}

#[test]
fn extremes_increasing_landscape() {
    let landscape = ints(&[1, 2, 3]);
    let (maximas, minimas) = calculate_extremes(&landscape);
    assert_eq!(maximas, vec![0..0, 3..3]);
    assert_eq!(minimas, vec![0..1]);
}

#[test]
fn currents_cover_landscape() {
    let currents = calculate_water_currents(&vec![0..0, 2..3, 6..6]).unwrap();
    // 0 + 1/2 + 2 and 1/2 + 0 + 3
    assert_eq!(currents, vec![Rat::new(5, 2), Rat::new(7, 2)]);
}

#[test]
fn currents_single_gap() {
    let currents = calculate_water_currents(&vec![0..0, 4..4]).unwrap();
    assert_eq!(currents, vec![whole(4)]);
}

#[test]
fn rain_falls_only_in_basins() {
    let mut landscape = ints(&[3, 1, 6, 4, 8, 9]);
    let step = rain_step(Rat::new(1, 7), &mut landscape).unwrap();
    assert_eq!(step, Rat::new(1, 7));
    assert_eq!(
        &landscape[..],
        &[whole(3), Rat::new(19, 14), whole(6), Rat::new(9, 2), whole(8), whole(9)][..]
    );
}

#[test]
fn more_rain_never_lowers_levels() {
    let times = [Rat::new(1, 7), Rat::new(2, 3), Rat::new(5, 3), Rat::new(23, 6)];
    let mut previous = ints(&[3, 1, 6, 4, 8, 9]);
    for t in times.iter() {
        let mut landscape = ints(&[3, 1, 6, 4, 8, 9]);
        rain(*t, &mut landscape);
        for i in 0..landscape.len() {
            let (p, q) = (previous[i], landscape[i]);
            assert!((p.num as i128) * (q.den as i128) <= (q.num as i128) * (p.den as i128));
        }
        previous = landscape;
    }
}
