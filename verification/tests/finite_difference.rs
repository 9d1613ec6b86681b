use scalargrad::fixed::FX_ONE;
use scalargrad::fixed::scalar_add;
use scalargrad::fixed::scalar_mul;
use scalargrad::fixed::scalar_neg;
use scalargrad::fixed::scalar_sub;
use scalargrad::fixed::scalar_tanh;
use scalargrad::graph::Graph;

fn to_fx(v: f64) -> i64 {
    (v * FX_ONE as f64).round() as i64
}

fn to_f64(v: i64) -> f64 {
    v as f64 / FX_ONE as f64
}

/// `(x * y + x - y) * y`, differentiated by the engine.
fn poly_grads(x: f64, y: f64) -> (f64, f64, f64) {
    let mut g = Graph::new();
    let hx = g.leaf(to_fx(x));
    let hy = g.leaf(to_fx(y));
    let p = g.multiply(hx, hy).unwrap();
    let s = g.add(p, hx).unwrap();
    let d = g.subtract(s, hy).unwrap();
    let f = g.multiply(d, hy).unwrap();
    g.backward(f).unwrap();
    (
        to_f64(g.value(f).unwrap()),
        to_f64(g.gradient(hx).unwrap()),
        to_f64(g.gradient(hy).unwrap()),
    )
}

/// `tanh(x * y + y)`, differentiated by the engine.
fn tanh_grads(x: f64, y: f64) -> (f64, f64, f64) {
    let mut g = Graph::new();
    let hx = g.leaf(to_fx(x));
    let hy = g.leaf(to_fx(y));
    let p = g.multiply(hx, hy).unwrap();
    let s = g.add(p, hy).unwrap();
    let t = g.tanh(s).unwrap();
    g.backward(t).unwrap();
    (
        to_f64(g.value(t).unwrap()),
        to_f64(g.gradient(hx).unwrap()),
        to_f64(g.gradient(hy).unwrap()),
    )
}

#[test]
fn finite_differences_polynomial() {
    let h = 1.0 / 1024.0;
    let inputs = [(0.7, -0.4), (0.21, 0.35), (-0.5, -0.63), (1.2, 0.8)];
    for &(x, y) in &inputs {
        let (_, gx, gy) = poly_grads(x, y);
        let fd_x = (poly_grads(x + h, y).0 - poly_grads(x - h, y).0) / (2.0 * h);
        let fd_y = (poly_grads(x, y + h).0 - poly_grads(x, y - h).0) / (2.0 * h);
        assert!((gx - fd_x).abs() < 1e-4, "gx={gx} fd={fd_x}");
        assert!((gy - fd_y).abs() < 1e-4, "gy={gy} fd={fd_y}");
    }
}

#[test]
fn finite_differences_tanh() {
    // The backward rule for tanh is the ideal `1 - t^2`; the stored value
    // is a Padé approximant of tanh, whose own derivative matches that
    // rule only near zero. Small inputs keep the two within the tolerance.
    let h = 1.0 / 1024.0;
    let inputs = [(0.11, 0.3), (-0.09, 0.25), (0.05, -0.2)];
    for &(x, y) in &inputs {
        let (_, gx, gy) = tanh_grads(x, y);
        let fd_x = (tanh_grads(x + h, y).0 - tanh_grads(x - h, y).0) / (2.0 * h);
        let fd_y = (tanh_grads(x, y + h).0 - tanh_grads(x, y - h).0) / (2.0 * h);
        assert!((gx - fd_x).abs() < 1e-4, "gx={gx} fd={fd_x}");
        assert!((gy - fd_y).abs() < 1e-4, "gy={gy} fd={fd_y}");
    }
}

#[test]
fn scalar_arithmetic_exact_values() {
    assert_eq!(scalar_add(FX_ONE, FX_ONE), 2 * FX_ONE);
    assert_eq!(scalar_sub(FX_ONE, 3 * FX_ONE), -2 * FX_ONE);
    assert_eq!(scalar_neg(5 * FX_ONE), -5 * FX_ONE);
    assert_eq!(scalar_mul(FX_ONE, 123456789), 123456789);
    assert_eq!(scalar_mul(3 * FX_ONE, 7 * FX_ONE), 21 * FX_ONE);
    assert_eq!(scalar_mul(FX_ONE / 2, FX_ONE / 2), FX_ONE / 4);
    // Multiplication truncates toward zero, in both signs.
    assert_eq!(scalar_mul(3, 3), 0);
    assert_eq!(scalar_mul(-3, 3), 0);
}

#[test]
fn scalar_arithmetic_saturates() {
    assert_eq!(scalar_add(i64::MAX, 1), i64::MAX);
    assert_eq!(scalar_add(i64::MIN, -1), i64::MIN);
    assert_eq!(scalar_sub(i64::MIN, 1), i64::MIN);
    assert_eq!(scalar_neg(i64::MIN), i64::MAX);
    assert_eq!(scalar_mul(i64::MAX, i64::MAX), i64::MAX);
    assert_eq!(scalar_mul(i64::MAX, i64::MIN), i64::MIN);
}

#[test]
fn scalar_tanh_shape() {
    assert_eq!(scalar_tanh(0), 0);
    // Clamped to one from two onward.
    assert_eq!(scalar_tanh(2 * FX_ONE), FX_ONE);
    assert_eq!(scalar_tanh(100 * FX_ONE), FX_ONE);
    assert_eq!(scalar_tanh(i64::MAX), FX_ONE);
    assert_eq!(scalar_tanh(-2 * FX_ONE), -FX_ONE);
    assert_eq!(scalar_tanh(i64::MIN), -FX_ONE);
    // Odd, bounded, and close to the real tanh inside the window.
    for i in -20..=20i64 {
        let x = i * FX_ONE / 10;
        let t = scalar_tanh(x);
        assert_eq!(scalar_tanh(-x), -t);
        assert!(-FX_ONE <= t && t <= FX_ONE);
        let approx = t as f64 / FX_ONE as f64;
        let real = (x as f64 / FX_ONE as f64).tanh();
        assert!((approx - real).abs() < 0.04, "x={i} approx={approx} real={real}");
    }
}
