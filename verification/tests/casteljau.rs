use splines::{ControlPoly, Coord2D, CurveError, HALF, ONE};

fn pt(x: f64, y: f64) -> Coord2D {
    Coord2D { x: (x * 4294967296.0) as i64, y: (y * 4294967296.0) as i64 }
}

fn cubic() -> Vec<Coord2D> {
    vec![pt(0.0, 0.0), pt(0.0, 1.0), pt(1.0, 1.0), pt(1.0, 0.0)]
}

#[test]
fn test_casteljau() {
    let ctrl: ControlPoly = ControlPoly {
        data: vec![pt(0f64, 0f64), pt(0f64, 1f64), pt(1f64, 1f64), pt(1f64, 0f64)],
        closed: false,
        line_thickness: 10,
    };
    let draw = ctrl.eval_with_casteljau().unwrap();
    let correct_draw = ControlPoly {
        data: vec![
            pt(0f64, 0f64),
            pt(0f64, 0.5),
            pt(0.25, 0.75),
            pt(0.5, 0.75),
            pt(1f64, 0f64),
        ],
        closed: false,
        line_thickness: 10,
    };
    assert_eq!(draw, correct_draw);
}

#[test]
fn test_divisor_half() {
    let p00 = pt(0f64, 0f64);
    let p01 = pt(0f64, 1f64);
    let p10 = pt(1f64, 1f64);
    let p11 = pt(1f64, 0f64);

    let p00_p01 = pt(0f64, 0.5f64);
    let p01_p10 = pt(0.5f64, 1f64);
    let p10_p11 = pt(1f64, 0.5f64);
    let mid1 = pt(0.25f64, 0.75f64);
    let mid3 = pt(0.75f64, 0.75f64);
    let mid2 = pt(0.5f64, 0.75f64);

    assert_eq!(ControlPoly::casteljau_divisor_half(p00, p01), p00_p01);
    assert_eq!(ControlPoly::casteljau_divisor_half(p01, p10), p01_p10);
    assert_eq!(ControlPoly::casteljau_divisor_half(p10, p11), p10_p11);

    assert_eq!(ControlPoly::casteljau_divisor_half(p00_p01, p01_p10), mid1);
    assert_eq!(ControlPoly::casteljau_divisor_half(p01_p10, p10_p11), mid3);
    assert_eq!(ControlPoly::casteljau_divisor_half(mid1, mid3), mid2);
}

#[test]
fn split_of_the_cubic() {
    let ctrl = ControlPoly { data: cubic(), closed: true, line_thickness: 7 };
    let (left, mid, right) = ctrl.get_casteljau_point_mid_sub().unwrap();
    assert_eq!(mid, pt(0.5, 0.75));
    assert_eq!(left.data, vec![pt(0.0, 0.0), pt(0.0, 0.5), pt(0.25, 0.75), pt(0.5, 0.75)]);
    assert_eq!(right.data, vec![pt(0.5, 0.75), pt(0.75, 0.75), pt(1.0, 0.5), pt(1.0, 0.0)]);
    assert_eq!(left.closed, true);
    assert_eq!(right.closed, true);
    assert_eq!(left.line_thickness, 7);
    assert_eq!(right.line_thickness, 7);
    assert_eq!(ctrl.data, cubic());
}

#[test]
fn split_of_a_segment() {
    let ctrl = ControlPoly::new(vec![pt(-2.0, 4.0), pt(6.0, -4.0)], false, 3);
    let (left, mid, right) = ctrl.get_casteljau_point_mid_sub().unwrap();
    assert_eq!(mid, pt(2.0, 0.0));
    assert_eq!(left.data, vec![pt(-2.0, 4.0), pt(2.0, 0.0)]);
    assert_eq!(right.data, vec![pt(2.0, 0.0), pt(6.0, -4.0)]);
}

#[test]
fn flattening_a_segment() {
    let ctrl = ControlPoly::new(vec![pt(0.0, 0.0), pt(2.0, 6.0)], false, 3);
    let flat = ctrl.eval_with_casteljau().unwrap();
    assert_eq!(flat.data, vec![pt(0.0, 0.0), pt(1.0, 3.0), pt(2.0, 6.0)]);
    assert_eq!(flat.closed, false);
    assert_eq!(flat.line_thickness, 3);
}

#[test]
fn flattening_is_the_first_half_and_the_last_point() {
    let ctrl = ControlPoly::new(vec![pt(1.0, 1.0), pt(3.0, 5.0), pt(7.0, 2.0), pt(9.0, 9.0), pt(4.0, 0.5)], false, 3);
    let flat = ctrl.eval_with_casteljau().unwrap();
    let (left, _, _) = ctrl.get_casteljau_point_mid_sub().unwrap();
    let mut expected = left.data.clone();
    expected.push(pt(4.0, 0.5));
    assert_eq!(flat.data.len(), 6);
    assert_eq!(flat.data, expected);
}

#[test]
fn curve_starts_and_ends_at_the_outer_control_points() {
    let ctrl = ControlPoly::new(vec![pt(0.3, -1.7), pt(2.9, 4.1), pt(-5.5, 0.1), pt(8.25, 3.0)], false, 3);
    assert_eq!(ctrl.point_at(0), Ok(ctrl.data[0]));
    assert_eq!(ctrl.point_at(ONE), Ok(ctrl.data[3]));
    assert_eq!(ctrl.get_casteljau_point(2, 1, 0), Ok(ctrl.data[1]));
    assert_eq!(ctrl.get_casteljau_point(2, 1, ONE), Ok(ctrl.data[3]));
}

#[test]
fn point_of_the_cubic_at_one_half_and_one_quarter() {
    let ctrl = ControlPoly::new(cubic(), false, 3);
    assert_eq!(ctrl.point_at(HALF), Ok(pt(0.5, 0.75)));
    // (1-t)^3 P0 + 3t(1-t)^2 P1 + 3t^2(1-t) P2 + t^3 P3 at t = 1/4
    assert_eq!(ctrl.point_at(ONE / 4), Ok(pt(0.15625, 0.5625)));
}

#[test]
fn midpoint_of_the_split_is_the_point_at_one_half() {
    let ctrl = ControlPoly::new(vec![pt(0.1, 0.2), pt(0.7, -3.3), pt(5.9, 2.2), pt(1.1, 1.3), pt(-4.0, 8.0)], false, 3);
    let (left, mid, right) = ctrl.get_casteljau_point_mid_sub().unwrap();
    assert_eq!(Ok(mid), ctrl.point_at(HALF));
    assert_eq!(left.data[4], mid);
    assert_eq!(right.data[0], mid);
    assert_eq!(left.data[0], ctrl.data[0]);
    assert_eq!(right.data[4], ctrl.data[4]);
}

#[test]
fn window_of_the_scheme() {
    let ctrl = ControlPoly::new(cubic(), false, 3);
    assert_eq!(ctrl.get_casteljau_point(0, 2, HALF), Ok(pt(1.0, 1.0)));
    assert_eq!(ctrl.get_casteljau_point(1, 1, HALF), Ok(pt(0.5, 1.0)));
    assert_eq!(ctrl.get_casteljau_point(2, 1, HALF), Ok(pt(0.75, 0.75)));
    assert_eq!(ctrl.get_casteljau_point(3, 0, HALF), Ok(pt(0.5, 0.75)));
}

#[test]
fn halves_trace_the_curve() {
    let ctrl = ControlPoly::new(vec![pt(0.1, 0.2), pt(0.7, -3.3), pt(5.9, 2.2), pt(1.1, 1.3)], false, 3);
    let (left, _, right) = ctrl.get_casteljau_point_mid_sub().unwrap();
    let tolerance: i64 = 2 * 3;
    let mut u: i64 = 0;
    while u <= ONE {
        let on_left = left.point_at(u).unwrap();
        let on_right = right.point_at(u).unwrap();
        let first = ctrl.point_at(u / 2).unwrap();
        let second = ctrl.point_at(HALF + u / 2).unwrap();
        assert!((on_left.x - first.x).abs() <= tolerance);
        assert!((on_left.y - first.y).abs() <= tolerance);
        assert!((on_right.x - second.x).abs() <= tolerance);
        assert!((on_right.y - second.y).abs() <= tolerance);
        u += ONE / 64 + 2;
    }
}

#[test]
fn halves_trace_the_curve_at_odd_parameters() {
    let data = vec![pt(0.1, 0.2), pt(0.7, -3.3), pt(5.9, 2.2), pt(1.1, 1.3)];
    let mut largest_step: i128 = 0;
    for j in 0..data.len() - 1 {
        largest_step = largest_step.max((data[j + 1].x as i128 - data[j].x as i128).abs());
        largest_step = largest_step.max((data[j + 1].y as i128 - data[j].y as i128).abs());
    }
    let levels: i128 = 3;
    let tolerance = 2 * levels + (levels * largest_step) / (2 * ONE as i128);
    assert_eq!(tolerance, 6 + 8);
    let ctrl = ControlPoly::new(data, false, 3);
    let (left, _, right) = ctrl.get_casteljau_point_mid_sub().unwrap();
    let mut u: i64 = 1;
    while u <= ONE {
        let on_left = left.point_at(u).unwrap();
        let on_right = right.point_at(u).unwrap();
        let first = ctrl.point_at(u / 2).unwrap();
        let second = ctrl.point_at(HALF + u / 2).unwrap();
        assert!((on_left.x as i128 - first.x as i128).abs() <= tolerance);
        assert!((on_left.y as i128 - first.y as i128).abs() <= tolerance);
        assert!((on_right.x as i128 - second.x as i128).abs() <= tolerance);
        assert!((on_right.y as i128 - second.y as i128).abs() <= tolerance);
        u += ONE / 64 + 2;
    }
}

#[test]
fn rounding_moves_a_half_by_less_than_the_tolerance() {
    let ctrl = ControlPoly::new(vec![
        Coord2D { x: 2, y: 0 },
        Coord2D { x: 0, y: 0 },
        Coord2D { x: 2, y: 0 },
    ], false, 3);
    let (left, mid, right) = ctrl.get_casteljau_point_mid_sub().unwrap();
    assert_eq!(left.data, vec![Coord2D { x: 2, y: 0 }, Coord2D { x: 1, y: 0 }, Coord2D { x: 1, y: 0 }]);
    assert_eq!(right.data, vec![Coord2D { x: 1, y: 0 }, Coord2D { x: 1, y: 0 }, Coord2D { x: 2, y: 0 }]);
    assert_eq!(mid, Coord2D { x: 1, y: 0 });
    assert_eq!(left.point_at(HALF), Ok(Coord2D { x: 1, y: 0 }));
    assert_eq!(ctrl.point_at(HALF / 2), Ok(Coord2D { x: 0, y: 0 }));
}

#[test]
fn rounding_moves_a_point_off_a_slanted_line() {
    let ctrl = ControlPoly::new(vec![
        Coord2D { x: 0, y: 0 },
        Coord2D { x: 1, y: 3 },
        Coord2D { x: 2, y: 6 },
    ], false, 3);
    let p = ctrl.point_at(HALF).unwrap();
    assert_eq!(p, Coord2D { x: 0, y: 2 });
    // twice the area of the triangle with the outer control points
    let area = 2 * (p.y - 0) - 6 * (p.x - 0);
    assert!(area.abs() <= 2 * (2 + 6));
}

#[test]
fn points_of_a_straight_polygon_stay_on_the_line() {
    // every control point lies on 3x - 2y = 1, in units of the last place
    let data = vec![
        Coord2D { x: 1, y: 1 },
        Coord2D { x: 2_000_000_001, y: 3_000_000_001 },
        Coord2D { x: -40_000_000_001, y: -60_000_000_002 },
        Coord2D { x: 7, y: 10 },
    ];
    let ctrl = ControlPoly::new(data, false, 3);
    let mut t: i64 = 0;
    while t <= ONE {
        let p = ctrl.point_at(t).unwrap();
        let miss = 3 * (p.x as i128) - 2 * (p.y as i128) - 1;
        assert!(miss.abs() <= 3 * (3 + 2));
        t += ONE / 37;
    }
}

#[test]
fn extrapolated_points_of_a_straight_polygon_stay_near_the_line() {
    // every control point lies on 3x - y = 0, in units of the last place
    let ctrl = ControlPoly::new(
        vec![Coord2D { x: 0, y: 0 }, Coord2D { x: 0, y: 0 }, Coord2D { x: 1, y: 3 }],
        false,
        3,
    );
    // at t = 100.5 the weights 1 - t and t have the sizes 99.5 and 100.5
    let t: i64 = 100 * ONE + HALF;
    let p = ctrl.point_at(t).unwrap();
    assert_eq!(p, Coord2D { x: 10050, y: 30250 });
    let miss = 3 * p.x - p.y;
    assert_eq!(miss, -100);
    let spread: i64 = 200;
    let units = spread * (spread * 0 + 1) + 1;
    assert_eq!(units, 201);
    assert!(miss.abs() <= units * (3 + 1));
}

#[test]
fn points_of_a_level_polygon_keep_their_height() {
    let ctrl = ControlPoly::new(vec![pt(0.0, 2.5), pt(1.0, 2.5), pt(5.0, 2.5)], false, 3);
    for k in -8i64..=16 {
        let p = ctrl.point_at(k * (ONE / 8)).unwrap();
        assert_eq!(p.y, pt(0.0, 2.5).y);
    }
}

#[test]
fn too_few_points() {
    let empty = ControlPoly::new(Vec::new(), false, 3);
    let single = ControlPoly::new(vec![pt(1.0, 2.0)], false, 3);
    for ctrl in [&empty, &single] {
        assert_eq!(ctrl.point_at(HALF), Err(CurveError::InsufficientPoints));
        assert_eq!(ctrl.get_casteljau_point(0, 0, HALF), Err(CurveError::InsufficientPoints));
        assert_eq!(ctrl.eval_spline_uniform(4), Err(CurveError::InsufficientPoints));
        assert_eq!(ctrl.eval_with_casteljau(), Err(CurveError::InsufficientPoints));
        assert_eq!(
            ctrl.get_casteljau_point_mid_sub().map(|_| ()),
            Err(CurveError::InsufficientPoints)
        );
    }
    assert_eq!(
        ControlPoly::with_attributes(Vec::new(), false, 1),
        Err(CurveError::InsufficientPoints)
    );
    assert_eq!(
        ControlPoly::with_attributes(vec![pt(1.0, 2.0)], true, 1),
        Err(CurveError::InsufficientPoints)
    );
}

#[test]
fn construction() {
    let points = vec![pt(0.0, 1.0), pt(1.0, 0.0)];
    let plain = ControlPoly::new(points.clone(), false, 3);
    assert_eq!(plain.data, points);
    assert_eq!(plain.closed, false);
    assert_eq!(plain.line_thickness, 3);
    let styled = ControlPoly::new(points.clone(), true, 9);
    assert_eq!(styled.data, points);
    assert_eq!(styled.closed, true);
    assert_eq!(styled.line_thickness, 9);
    assert_eq!(ControlPoly::with_attributes(points.clone(), true, 9), Ok(styled));
    let single = ControlPoly::new(vec![pt(4.0, 5.0)], true, 200);
    assert_eq!(single, ControlPoly { data: vec![pt(4.0, 5.0)], closed: true, line_thickness: 200 });
    let empty = ControlPoly::new(Vec::new(), false, 0);
    assert_eq!(empty, ControlPoly { data: Vec::new(), closed: false, line_thickness: 0 });
}

#[test]
fn uniform_samples_of_a_segment() {
    let ctrl = ControlPoly::new(vec![pt(0.0, 0.0), pt(4.0, -8.0)], false, 3);
    let samples = ctrl.eval_spline_uniform(4).unwrap();
    assert_eq!(samples, vec![pt(0.0, 0.0), pt(1.0, -2.0), pt(2.0, -4.0), pt(3.0, -6.0)]);
}

#[test]
fn uniform_samples_leave_the_end_out() {
    let ctrl = ControlPoly::new(cubic(), false, 3);
    for iterations in [1u16, 2, 3, 5, 7, 10, 100, 1000, 65535] {
        let samples = ctrl.eval_spline_uniform(iterations).unwrap();
        assert_eq!(samples.len(), iterations as usize);
        assert_eq!(samples[0], pt(0.0, 0.0));
        assert_ne!(samples[samples.len() - 1], pt(1.0, 0.0));
    }
}

#[test]
fn uniform_samples_use_the_step_rounded_up() {
    let ctrl = ControlPoly::new(cubic(), false, 3);
    let samples = ctrl.eval_spline_uniform(3).unwrap();
    let step: i64 = 1431655766;
    assert_eq!(samples.len(), 3);
    assert_eq!(Ok(samples[0]), ctrl.point_at(0));
    assert_eq!(Ok(samples[1]), ctrl.point_at(step));
    assert_eq!(Ok(samples[2]), ctrl.point_at(2 * step));
}

#[test]
fn no_iterations_sample_the_start_alone() {
    let ctrl = ControlPoly::new(cubic(), false, 3);
    assert_eq!(ctrl.eval_spline_uniform(0), Ok(vec![pt(0.0, 0.0)]));
}

#[test]
fn blend_inside_the_unit_interval() {
    let a = pt(1.0, -1.0);
    let b = pt(5.0, 7.0);
    assert_eq!(ControlPoly::casteljau_divisor(a, b, ONE / 4), pt(2.0, 1.0));
    assert_eq!(ControlPoly::casteljau_divisor(a, b, HALF), pt(3.0, 3.0));
    assert_eq!(ControlPoly::casteljau_divisor(a, b, 3 * (ONE / 4)), pt(4.0, 5.0));
    assert_eq!(ControlPoly::casteljau_divisor(a, b, 1), Coord2D { x: a.x + 4, y: a.y + 8 });
    assert_eq!(ControlPoly::casteljau_divisor(a, b, ONE - 1), Coord2D { x: b.x - 4, y: b.y - 8 });
    assert_eq!(ControlPoly::casteljau_divisor(a, b, ONE / 4), a.blended(b, ONE / 4));
}

#[test]
fn blend_at_the_ends_and_beyond() {
    let a = pt(1.0, -1.0);
    let b = pt(5.0, 7.0);
    assert_eq!(a.blended(b, ONE / 4), pt(2.0, 1.0));
    assert_eq!(a.blended(b, 0), a);
    assert_eq!(a.blended(b, ONE), b);
    assert_eq!(a.blended(b, 2 * ONE), pt(9.0, 15.0));
    assert_eq!(a.blended(b, -ONE), pt(-3.0, -9.0));
}

#[test]
fn blend_rounds_down() {
    let a = Coord2D { x: 0, y: 0 };
    let b = Coord2D { x: 1, y: -1 };
    assert_eq!(ControlPoly::casteljau_divisor_half(a, b), Coord2D { x: 0, y: -1 });
    assert_eq!(ControlPoly::casteljau_divisor_half(b, a), Coord2D { x: 0, y: -1 });
    let c = Coord2D { x: 7, y: -7 };
    assert_eq!(ControlPoly::casteljau_divisor(a, c, ONE / 4), Coord2D { x: 1, y: -2 });
}

#[test]
fn blend_saturates() {
    let low = Coord2D { x: i64::MIN, y: i64::MIN };
    let high = Coord2D { x: i64::MAX, y: i64::MAX };
    assert_eq!(low.blended(high, 2 * ONE), high);
    assert_eq!(high.blended(low, 2 * ONE), low);
    assert_eq!(low.blended(high, ONE), high);
    assert_eq!(low.blended(high, HALF), Coord2D { x: -1, y: -1 });
    assert_eq!(ControlPoly::casteljau_divisor(low, high, HALF), Coord2D { x: -1, y: -1 });
    assert_eq!(low.blended(high, i64::MIN), low);
}

#[test]
fn blend_at_a_third() {
    assert_eq!(ControlPoly::a_frame_divisor(pt(0.0, 0.0), pt(3.0, 6.0)), pt(1.0, 2.0));
    assert_eq!(ControlPoly::a_frame_divisor(pt(3.0, 6.0), pt(0.0, 0.0)), pt(2.0, 4.0));
    assert_eq!(ControlPoly::a_frame_divisor(pt(-1.5, 2.0), pt(3.0, -2.5)), pt(0.0, 0.5));
    let a = Coord2D { x: 0, y: 0 };
    assert_eq!(ControlPoly::a_frame_divisor(a, Coord2D { x: 4, y: -4 }), Coord2D { x: 1, y: -2 });
    assert_eq!(ControlPoly::a_frame_divisor(a, Coord2D { x: 2, y: -2 }), Coord2D { x: 0, y: -1 });
    assert_eq!(ControlPoly::a_frame_divisor(a, a), a);
    let low = Coord2D { x: i64::MIN, y: i64::MAX };
    let high = Coord2D { x: i64::MAX, y: i64::MIN };
    assert_eq!(
        ControlPoly::a_frame_divisor(low, high),
        Coord2D { x: -3074457345618258603, y: 3074457345618258602 }
    );
    assert_eq!(pt(0.0, 0.0).third_towards(pt(3.0, 6.0)), pt(1.0, 2.0));
    assert_eq!(splines::third_fixed(0, 3 * ONE), ONE);
    assert_eq!(splines::third_fixed(10, 4), 8);
    assert_eq!(splines::third_fixed(0, -1), -1);
}

#[test]
fn vector_arithmetic() {
    let a = pt(1.5, -2.0);
    let b = pt(0.25, 4.0);
    assert_eq!(a.plus(b), pt(1.75, 2.0));
    assert_eq!(a.minus(b), pt(1.25, -6.0));
    assert_eq!(a.scaled(HALF), pt(0.75, -1.0));
    assert_eq!(a.scaled(-2 * ONE), pt(-3.0, 4.0));
    assert_eq!(Coord2D::new(3, -3).scaled(HALF), Coord2D::new(1, -2));
    let high = Coord2D::new(i64::MAX, i64::MIN);
    assert_eq!(high.plus(Coord2D::new(1, -1)), high);
    assert_eq!(high.minus(Coord2D::new(-1, 1)), high);
    assert_eq!(high.scaled(2 * ONE), high);
    assert_eq!(a.plus(b.minus(a).scaled(HALF)), ControlPoly::casteljau_divisor_half(a, b));
}

#[test]
fn fixed_point_blend_of_scalars() {
    assert_eq!(splines::lerp_fixed(0, 10, HALF), 5);
    assert_eq!(splines::lerp_fixed(10, 0, HALF), 5);
    assert_eq!(splines::lerp_fixed(0, 11, HALF), 5);
    assert_eq!(splines::lerp_fixed(0, -11, HALF), -6);
    assert_eq!(splines::lerp_fixed(-3, 5, 3 * ONE), 21);
    assert_eq!(splines::saturate_fixed(i64::MAX as i128 + 1), i64::MAX);
    assert_eq!(splines::saturate_fixed(i64::MIN as i128 - 1), i64::MIN);
    assert_eq!(splines::saturate_fixed(-12), -12);
}
