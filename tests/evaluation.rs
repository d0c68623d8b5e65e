use tbt_segmentation::behaviortree::{Tbt, TbtNode};
use tbt_segmentation::evaluate;
use tbt_segmentation::robustness::{INF, NEG_INF};
use tbt_segmentation::stl::Stl;
use tbt_segmentation::trace::Trace;

/// An atomic proposition over the single channel `a`.
type Atom = fn(&[f32]) -> f32;

/// Order- and sign-preserving integer encoding of a float robustness value.
fn key(x: f32) -> i64 {
    if x == f32::INFINITY {
        INF
    } else if x == f32::NEG_INFINITY {
        NEG_INF
    } else {
        let magnitude = (x.to_bits() & 0x7fff_ffff) as i64;
        if x.is_sign_negative() {
            -magnitude
        } else {
            magnitude
        }
    }
}

/// The float a key stands for.
fn value(k: i64) -> f32 {
    if k == INF {
        f32::INFINITY
    } else if k == NEG_INF {
        f32::NEG_INFINITY
    } else if k < 0 {
        -f32::from_bits((-k) as u32)
    } else {
        f32::from_bits(k as u32)
    }
}

/// The trace of the atomic propositions over the channel values `signal`.
fn make_trace(signal: &[f32], atoms: &[Atom]) -> Trace {
    let columns = atoms
        .iter()
        .map(|f| signal.iter().map(|x| key(f(&[*x]))).collect())
        .collect();
    Trace {
        length: signal.len(),
        atoms: columns,
    }
}

fn run_test(
    traces_with_expected_value: Vec<(Vec<f32>, f32)>,
    atoms: &[Atom],
    tbt: &Tbt,
) -> Result<(), String> {
    for (trace, expected) in traces_with_expected_value {
        let trace = make_trace(&trace, atoms);
        let robustness = value(evaluate(tbt, &trace, false).robustness);
        if robustness == expected {
            continue;
        } else {
            return Err(format!("Expected {expected} but was {robustness}."));
        }
    }
    Ok(())
}

#[test]
fn test_globally() {
    let traces_with_expected_value = vec![
        (
            vec![1.0, 2.0, 3.0, 4.0, 5.0, 1.0, 2.0, -1.0, 2.0, 3.0, 4.0, 5.0],
            -1.0,
        ),
        (
            vec![
                5.0, 22.0, 3.0, 4.0, 5.0, 3.0, 21.0, 11.0, 32.0, 3.0, 14.0, 5.0,
            ],
            3.0,
        ),
        (
            vec![
                5.0, 22.0, 3.0, 4.0, 5.0, 3.0, 21.0, 11.0, 32.0, 3.0, 14.0, 1.0,
            ],
            1.0,
        ),
        (
            vec![
                5.0, 22.0, 3.0, 4.0, 5.0, 3.0, 21.0, 11.0, 32.0, 3.0, 14.0, -10.0,
            ],
            -10.0,
        ),
        (
            vec![
                -5.0, 22.0, 3.0, 4.0, 5.0, 3.0, 21.0, 11.0, 32.0, 3.0, 14.0, 1.0,
            ],
            -5.0,
        ),
        (
            vec![
                -5.0, 22.0, 3.0, 4.0, 5.0, 3.0, 21.0, 11.0, 32.0, 3.0, 14.0, -10.0,
            ],
            -10.0,
        ),
    ];
    let mut fc: usize = 0;
    let mut nc: usize = 0;
    let mut atoms: Vec<Atom> = Vec::new();
    let x1 = Stl::atomic(&mut fc, atoms.len());
    atoms.push(|a: &[f32]| a[0]);
    let x2 = Stl::globally(&mut fc, x1);
    let x3 = TbtNode::leaf(&mut nc, x2, String::from("globally"));
    let tbt = Tbt::new(x3, nc, fc);
    run_test(traces_with_expected_value, &atoms, &tbt).unwrap();
}

#[test]
fn test_globally_interval() {
    let traces_with_expected_value = vec![
        (
            vec![1.0, 2.0, 3.0, 4.0, 5.0, 1.0, 2.0, -1.0, 2.0, 3.0, 4.0, 5.0],
            -1.0,
        ),
        (
            vec![
                5.0, 22.0, 3.0, 4.0, 5.0, 3.0, 21.0, 11.0, 32.0, 3.0, 14.0, 5.0,
            ],
            3.0,
        ),
        (
            vec![
                5.0, 22.0, 3.0, 4.0, 5.0, 3.0, 21.0, 11.0, 32.0, 3.0, 14.0, 1.0,
            ],
            1.0,
        ),
        (
            vec![
                5.0, 22.0, 3.0, 4.0, 5.0, 3.0, 21.0, 11.0, 32.0, 3.0, 14.0, -10.0,
            ],
            -10.0,
        ),
        (
            vec![
                -5.0, 22.0, 3.0, 4.0, 5.0, 3.0, 21.0, 11.0, 32.0, 3.0, 14.0, 1.0,
            ],
            -5.0,
        ),
        (
            vec![
                -5.0, 22.0, 3.0, 4.0, 5.0, 3.0, 21.0, 11.0, 32.0, 3.0, 14.0, -10.0,
            ],
            -10.0,
        ),
    ];
    let mut fc: usize = 0;
    let mut nc: usize = 0;
    let mut atoms: Vec<Atom> = Vec::new();
    let x1 = Stl::atomic(&mut fc, atoms.len());
    atoms.push(|a: &[f32]| a[0]);
    let x2 = Stl::globally_interval(&mut fc, 0, usize::MAX, x1);
    let x3 = TbtNode::leaf(&mut nc, x2, String::from("globally_interval"));
    let tbt = Tbt::new(x3, nc, fc);
    run_test(traces_with_expected_value.clone(), &atoms, &tbt).unwrap();
    let traces_with_expected_value = vec![
        (
            vec![1.0, 2.0, 3.0, 4.0, 5.0, 1.0, 2.0, -1.0, 2.0, 3.0, 4.0, 5.0],
            -1.0,
        ),
        (
            vec![
                5.0, 22.0, 3.0, 4.0, 5.0, 3.0, 21.0, 11.0, 32.0, 2.0, 14.0, 5.0,
            ],
            2.0,
        ),
        (
            vec![
                5.0, 22.0, 3.0, 4.0, 5.0, 3.0, 21.0, 11.0, 32.0, 3.0, 14.0, 1.0,
            ],
            1.0,
        ),
        (
            vec![
                5.0, 22.0, 3.0, 4.0, 5.0, 3.0, 21.0, 11.0, 32.0, 3.0, 14.0, -10.0,
            ],
            -10.0,
        ),
        (
            vec![
                -5.0, 22.0, 3.0, -4.0, 5.0, 3.0, 21.0, 11.0, 32.0, 3.0, 14.0, 1.0,
            ],
            -4.0,
        ),
        (
            vec![
                -5.0, 22.0, 3.0, 4.0, 5.0, 3.0, 21.0, 11.0, 32.0, 3.0, 14.0, -10.0,
            ],
            -10.0,
        ),
        (vec![2.0, 3.0], f32::NEG_INFINITY),
        (vec![2.0, -3.0], f32::NEG_INFINITY),
        (vec![-2.0, -3.0], f32::NEG_INFINITY),
        (vec![-2.0, 3.0], f32::NEG_INFINITY),
    ];
    let mut fc: usize = 0;
    let mut nc: usize = 0;
    let mut atoms: Vec<Atom> = Vec::new();
    let x1 = Stl::atomic(&mut fc, atoms.len());
    atoms.push(|a: &[f32]| a[0]);
    let x2 = Stl::globally_interval(&mut fc, 3, usize::MAX, x1);
    let x3 = TbtNode::leaf(&mut nc, x2, String::from("globally_interval"));
    let tbt = Tbt::new(x3, nc, fc);
    run_test(traces_with_expected_value.clone(), &atoms, &tbt).unwrap();
    let traces_with_expected_value = vec![
        (
            vec![1.0, 2.0, 3.0, 4.0, 5.0, 1.0, 2.0, -1.0, 2.0, 3.0, 4.0, 5.0],
            1.0,
        ),
        (
            vec![
                5.0, 22.0, 3.0, 4.0, 5.0, 3.0, 21.0, 11.0, 32.0, 2.0, 14.0, 5.0,
            ],
            3.0,
        ),
        (
            vec![
                5.0, 22.0, 3.0, 1.0, 5.0, 3.0, 21.0, 11.0, 32.0, 3.0, 14.0, 1.0,
            ],
            1.0,
        ),
        (
            vec![
                5.0, 22.0, 3.0, 4.0, 5.0, -10.0, 21.0, 11.0, 32.0, 3.0, 14.0, -10.0,
            ],
            -10.0,
        ),
        (
            vec![
                -5.0, 22.0, 3.0, -4.0, 5.0, 3.0, 21.0, 11.0, 32.0, 3.0, 14.0, 1.0,
            ],
            -4.0,
        ),
        (
            vec![
                -5.0, 22.0, 3.0, 4.0, 5.0, -10.0, 21.0, 11.0, 32.0, 3.0, 14.0, -10.0,
            ],
            -10.0,
        ),
        (vec![2.0, 3.0, 3.0, 4.0], 4.0),
        (vec![2.0, 3.0, 3.0, -4.0], -4.0),
        (vec![2.0, 3.0], f32::NEG_INFINITY),
        (vec![2.0, -3.0], f32::NEG_INFINITY),
        (vec![-2.0, -3.0], f32::NEG_INFINITY),
        (vec![-2.0, 3.0], f32::NEG_INFINITY),
    ];
    let mut fc: usize = 0;
    let mut nc: usize = 0;
    let mut atoms: Vec<Atom> = Vec::new();
    let x1 = Stl::atomic(&mut fc, atoms.len());
    atoms.push(|a: &[f32]| a[0]);
    let x2 = Stl::globally_interval(&mut fc, 3, 5, x1);
    let x3 = TbtNode::leaf(&mut nc, x2, String::from("globally_interval"));
    let tbt = Tbt::new(x3, nc, fc);
    run_test(traces_with_expected_value.clone(), &atoms, &tbt).unwrap();
    let traces_with_expected_value = vec![
        (
            vec![1.0, 2.0, 3.0, 4.0, 5.0, 10.0, 2.0, -1.0, 2.0, 3.0, 4.0, 5.0],
            1.0,
        ),
        (
            vec![
                5.0, 22.0, 2.0, 4.0, 5.0, 3.0, 21.0, 11.0, 32.0, 2.0, 14.0, 5.0,
            ],
            2.0,
        ),
        (
            vec![
                5.0, 22.0, 3.0, 2.0, 1.0, 0.0, -21.0, 11.0, 32.0, 3.0, 14.0, 1.0,
            ],
            0.0,
        ),
        (
            vec![
                5.0, 22.0, 3.0, 4.0, 5.0, -10.0, 21.0, 11.0, 32.0, 3.0, 14.0, -10.0,
            ],
            -10.0,
        ),
        (
            vec![
                -5.0, 22.0, 3.0, -4.0, 5.0, 3.0, 21.0, 11.0, 32.0, 3.0, 14.0, 1.0,
            ],
            -5.0,
        ),
        (
            vec![
                -5.0, 22.0, -13.0, 4.0, 5.0, -10.0, 21.0, 11.0, 32.0, 3.0, 14.0, -10.0,
            ],
            -13.0,
        ),
        (vec![2.0, 3.0, 3.0, 4.0], 2.0),
        (vec![2.0, 3.0, 3.0, -4.0], -4.0),
        (vec![2.0, 3.0], 2.0),
        (vec![2.0, -3.0], -3.0),
        (vec![-2.0, -3.0], -3.0),
        (vec![-2.0, 3.0], -2.0),
    ];
    let mut fc: usize = 0;
    let mut nc: usize = 0;
    let mut atoms: Vec<Atom> = Vec::new();
    let x1 = Stl::atomic(&mut fc, atoms.len());
    atoms.push(|a: &[f32]| a[0]);
    let x2 = Stl::globally_interval(&mut fc, 0, 5, x1);
    let x3 = TbtNode::leaf(&mut nc, x2, String::from("globally_interval"));
    let tbt = Tbt::new(x3, nc, fc);
    run_test(traces_with_expected_value.clone(), &atoms, &tbt).unwrap();
    let traces_with_expected_value = vec![
        (
            vec![1.0, 2.0, 3.0, 4.0, 5.0, 10.0, 2.0, -1.0, 2.0, 3.0, 4.0, 5.0],
            5.0,
        ),
        (
            vec![
                -5.0, 22.0, -13.0, 4.0, -5.0, -10.0, 21.0, 11.0, 32.0, 3.0, 14.0, -10.0,
            ],
            -5.0,
        ),
        (vec![2.0, 3.0], f32::NEG_INFINITY),
        (vec![2.0, -3.0], f32::NEG_INFINITY),
        (vec![-2.0, -3.0], f32::NEG_INFINITY),
        (vec![-2.0, 3.0], f32::NEG_INFINITY),
    ];
    let mut fc: usize = 0;
    let mut nc: usize = 0;
    let mut atoms: Vec<Atom> = Vec::new();
    let x1 = Stl::atomic(&mut fc, atoms.len());
    atoms.push(|a: &[f32]| a[0]);
    let x2 = Stl::globally_interval(&mut fc, 4, 4, x1);
    let x3 = TbtNode::leaf(&mut nc, x2, String::from("globally_interval"));
    let tbt = Tbt::new(x3, nc, fc);
    run_test(traces_with_expected_value.clone(), &atoms, &tbt).unwrap();
    let traces_with_expected_value = vec![(
        vec![1.0, 2.0, 3.0, 4.0, 5.0, 10.0, 2.0, -1.0, 2.0, 3.0, 4.0, 5.0],
        f32::NEG_INFINITY,
    )];
    let mut fc: usize = 0;
    let mut nc: usize = 0;
    let mut atoms: Vec<Atom> = Vec::new();
    let x1 = Stl::atomic(&mut fc, atoms.len());
    atoms.push(|a: &[f32]| a[0]);
    let x2 = Stl::globally_interval(&mut fc, 4, 3, x1);
    let x3 = TbtNode::leaf(&mut nc, x2, String::from("globally_interval"));
    let tbt = Tbt::new(x3, nc, fc);
    run_test(traces_with_expected_value.clone(), &atoms, &tbt).unwrap();
}

#[test]
fn test_eventually() {
    let traces_with_expected_value = vec![
        (
            vec![1.0, 2.0, 3.0, 4.0, 5.0, 1.0, 2.0, -1.0, 2.0, 3.0, 4.0, 5.0],
            5.0,
        ),
        (
            vec![
                5.0, 22.0, 3.0, 4.0, 5.0, 3.0, 21.0, 11.0, 32.0, 3.0, 14.0, 65.0,
            ],
            65.0,
        ),
        (
            vec![
                55.0, 22.0, 3.0, 4.0, 5.0, 3.0, 21.0, 11.0, 32.0, 3.0, 14.0, 1.0,
            ],
            55.0,
        ),
        (
            vec![
                -5.0, -22.0, -3.0, -4.0, -5.0, -3.0, -21.0, -11.0, -12.0, -3.0, -14.0, -10.0,
            ],
            -3.0,
        ),
        (
            vec![
                -1.0, -22.0, -3.0, -4.0, -5.0, -3.0, -21.0, -11.0, -12.0, -3.0, -14.0, -10.0,
            ],
            -1.0,
        ),
        (
            vec![
                -5.0, -22.0, -3.0, -4.0, -5.0, -3.0, -21.0, -11.0, -12.0, -3.0, -14.0, -2.0,
            ],
            -2.0,
        ),
    ];
    let mut fc: usize = 0;
    let mut nc: usize = 0;
    let mut atoms: Vec<Atom> = Vec::new();
    let x1 = Stl::atomic(&mut fc, atoms.len());
    atoms.push(|a: &[f32]| a[0]);
    let x2 = Stl::eventually(&mut fc, x1);
    let x3 = TbtNode::leaf(&mut nc, x2, String::from("eventually"));
    let tbt = Tbt::new(x3, nc, fc);
    run_test(traces_with_expected_value, &atoms, &tbt).unwrap();
}

#[test]
fn test_eventually_interval() {
    let traces_with_expected_value = vec![
        (
            vec![1.0, 2.0, 3.0, 4.0, 5.0, 1.0, 2.0, -1.0, 2.0, 3.0, 4.0, 5.0],
            5.0,
        ),
        (
            vec![
                5.0, 22.0, 3.0, 4.0, 5.0, 3.0, 21.0, 11.0, 32.0, 3.0, 14.0, 65.0,
            ],
            65.0,
        ),
        (
            vec![
                55.0, 22.0, 3.0, 4.0, 5.0, 3.0, 21.0, 11.0, 32.0, 3.0, 14.0, 1.0,
            ],
            55.0,
        ),
        (
            vec![
                -5.0, -22.0, -3.0, -4.0, -5.0, -3.0, -21.0, -11.0, -12.0, -3.0, -14.0, -10.0,
            ],
            -3.0,
        ),
        (
            vec![
                -1.0, -22.0, -3.0, -4.0, -5.0, -3.0, -21.0, -11.0, -12.0, -3.0, -14.0, -10.0,
            ],
            -1.0,
        ),
        (
            vec![
                -5.0, -22.0, -3.0, -4.0, -5.0, -3.0, -21.0, -11.0, -12.0, -3.0, -14.0, -2.0,
            ],
            -2.0,
        ),
    ];
    let mut fc: usize = 0;
    let mut nc: usize = 0;
    let mut atoms: Vec<Atom> = Vec::new();
    let x1 = Stl::atomic(&mut fc, atoms.len());
    atoms.push(|a: &[f32]| a[0]);
    let x2 = Stl::eventually_interval(&mut fc, 0, usize::MAX, x1);
    let x3 = TbtNode::leaf(&mut nc, x2, String::from("eventually_interval"));
    let tbt = Tbt::new(x3, nc, fc);
    run_test(traces_with_expected_value.clone(), &atoms, &tbt).unwrap();
    let traces_with_expected_value = vec![
        (
            vec![1.0, 2.0, 3.0, 4.0, 5.0, 1.0, 2.0, -1.0, 2.0, 3.0, 4.0, 5.0],
            5.0,
        ),
        (
            vec![
                5.0, 22.0, 3.0, 4.0, 5.0, 3.0, 21.0, 11.0, 32.0, 3.0, 14.0, 65.0,
            ],
            65.0,
        ),
        (
            vec![
                51.0, 22.0, 3.0, 4.0, 55.0, 3.0, 21.0, 11.0, 32.0, 3.0, 14.0, 1.0,
            ],
            55.0,
        ),
        (
            vec![
                -5.0, -22.0, -3.0, -4.0, -5.0, -1.0, -21.0, -11.0, -12.0, -3.0, -14.0, -10.0,
            ],
            -1.0,
        ),
        (
            vec![
                -1.0, -22.0, -3.0, -4.0, -5.0, -3.0, -21.0, -11.0, -12.0, -3.0, -14.0, -10.0,
            ],
            -3.0,
        ),
        (
            vec![
                -5.0, -22.0, -3.0, -4.0, -5.0, -3.0, -21.0, -11.0, -12.0, -3.0, -14.0, -2.0,
            ],
            -2.0,
        ),
        (vec![2.0, 3.0], f32::NEG_INFINITY),
        (vec![2.0, -3.0], f32::NEG_INFINITY),
        (vec![-2.0, -3.0], f32::NEG_INFINITY),
        (vec![-2.0, 3.0], f32::NEG_INFINITY),
    ];
    let mut fc: usize = 0;
    let mut nc: usize = 0;
    let mut atoms: Vec<Atom> = Vec::new();
    let x1 = Stl::atomic(&mut fc, atoms.len());
    atoms.push(|a: &[f32]| a[0]);
    let x2 = Stl::eventually_interval(&mut fc, 3, usize::MAX, x1);
    let x3 = TbtNode::leaf(&mut nc, x2, String::from("eventually_interval"));
    let tbt = Tbt::new(x3, nc, fc);
    run_test(traces_with_expected_value.clone(), &atoms, &tbt).unwrap();
    let traces_with_expected_value = vec![
        (
            vec![1.0, 2.0, 3.0, 4.0, 5.0, 1.0, 2.0, -1.0, 2.0, 3.0, 4.0, 5.0],
            5.0,
        ),
        (
            vec![
                5.0, 22.0, 3.0, 10.0, 5.0, 3.0, 21.0, 11.0, 32.0, 3.0, 14.0, 65.0,
            ],
            10.0,
        ),
        (
            vec![
                55.0, 22.0, 3.0, 4.0, 5.0, 30.0, 21.0, 11.0, 32.0, 3.0, 14.0, 1.0,
            ],
            30.0,
        ),
        (
            vec![
                -5.0, -22.0, -3.0, -4.0, -1.0, -3.0, -21.0, -11.0, -12.0, -3.0, -14.0, -10.0,
            ],
            -1.0,
        ),
        (
            vec![
                -5.0, -22.0, -3.0, -4.0, 1.0, -3.0, -21.0, -11.0, -12.0, -3.0, -14.0, -10.0,
            ],
            1.0,
        ),
        (
            vec![
                -1.0, -22.0, -3.0, -4.0, -5.0, -3.0, -21.0, -11.0, -12.0, -3.0, -14.0, -10.0,
            ],
            -3.0,
        ),
        (
            vec![
                -1.0, -22.0, -3.0, -3.0, -5.0, -4.0, -21.0, -11.0, -12.0, -3.0, -14.0, -2.0,
            ],
            -3.0,
        ),
        (vec![2.0, 3.0, 3.0, 4.0], 4.0),
        (vec![2.0, 3.0, 3.0, -4.0], -4.0),
        (vec![2.0, 3.0], f32::NEG_INFINITY),
        (vec![2.0, -3.0], f32::NEG_INFINITY),
        (vec![-2.0, -3.0], f32::NEG_INFINITY),
        (vec![-2.0, 3.0], f32::NEG_INFINITY),
    ];
    let mut fc: usize = 0;
    let mut nc: usize = 0;
    let mut atoms: Vec<Atom> = Vec::new();
    let x1 = Stl::atomic(&mut fc, atoms.len());
    atoms.push(|a: &[f32]| a[0]);
    let x2 = Stl::eventually_interval(&mut fc, 3, 5, x1);
    let x3 = TbtNode::leaf(&mut nc, x2, String::from("eventually_interval"));
    let tbt = Tbt::new(x3, nc, fc);
    run_test(traces_with_expected_value.clone(), &atoms, &tbt).unwrap();
    let traces_with_expected_value = vec![
        (
            vec![1.0, 2.0, 3.0, 4.0, 5.0, 1.0, 2.0, -1.0, 2.0, 3.0, 4.0, 5.0],
            5.0,
        ),
        (
            vec![
                15.0, 1.0, 3.0, 4.0, 5.0, 3.0, 21.0, 11.0, 32.0, 3.0, 14.0, 65.0,
            ],
            15.0,
        ),
        (
            vec![
                55.0, 22.0, 333.0, 4.0, 5.0, 3.0, 21.0, 11.0, 32.0, 3.0, 14.0, 1.0,
            ],
            333.0,
        ),
        (
            vec![
                -5.0, -22.0, -5.0, -4.0, -5.0, -3.0, -21.0, -11.0, -12.0, -3.0, -14.0, -10.0,
            ],
            -3.0,
        ),
        (
            vec![
                -1.0, -22.0, -3.0, -4.0, -5.0, -3.0, -21.0, -11.0, -12.0, -3.0, -14.0, -10.0,
            ],
            -1.0,
        ),
        (
            vec![
                -5.0, -22.0, 3.0, -4.0, -5.0, -3.0, -21.0, -11.0, -12.0, -3.0, -14.0, -2.0,
            ],
            3.0,
        ),
        (vec![2.0, 3.0, 3.0, 4.0], 4.0),
        (vec![2.0, 3.0, 3.0, -4.0], 3.0),
        (vec![5.0, 3.0, 3.0, -4.0], 5.0),
    ];
    let mut fc: usize = 0;
    let mut nc: usize = 0;
    let mut atoms: Vec<Atom> = Vec::new();
    let x1 = Stl::atomic(&mut fc, atoms.len());
    atoms.push(|a: &[f32]| a[0]);
    let x2 = Stl::eventually_interval(&mut fc, 0, 5, x1);
    let x3 = TbtNode::leaf(&mut nc, x2, String::from("eventually_interval"));
    let tbt = Tbt::new(x3, nc, fc);
    run_test(traces_with_expected_value.clone(), &atoms, &tbt).unwrap();
    let traces_with_expected_value = vec![
        (
            vec![1.0, 2.0, 3.0, 4.0, 5.0, 10.0, 2.0, -1.0, 2.0, 3.0, 4.0, 5.0],
            5.0,
        ),
        (
            vec![
                -5.0, 22.0, -13.0, 4.0, -5.0, -10.0, 21.0, 11.0, 32.0, 3.0, 14.0, -10.0,
            ],
            -5.0,
        ),
    ];
    let mut fc: usize = 0;
    let mut nc: usize = 0;
    let mut atoms: Vec<Atom> = Vec::new();
    let x1 = Stl::atomic(&mut fc, atoms.len());
    atoms.push(|a: &[f32]| a[0]);
    let x2 = Stl::eventually_interval(&mut fc, 4, 4, x1);
    let x3 = TbtNode::leaf(&mut nc, x2, String::from("eventually_interval"));
    let tbt = Tbt::new(x3, nc, fc);
    run_test(traces_with_expected_value.clone(), &atoms, &tbt).unwrap();
    let traces_with_expected_value = vec![(
        vec![1.0, 2.0, 3.0, 4.0, 5.0, 10.0, 2.0, -1.0, 2.0, 3.0, 4.0, 5.0],
        f32::NEG_INFINITY,
    )];
    let mut fc: usize = 0;
    let mut nc: usize = 0;
    let mut atoms: Vec<Atom> = Vec::new();
    let x1 = Stl::atomic(&mut fc, atoms.len());
    atoms.push(|a: &[f32]| a[0]);
    let x2 = Stl::eventually_interval(&mut fc, 4, 3, x1);
    let x3 = TbtNode::leaf(&mut nc, x2, String::from("eventually_interval"));
    let tbt = Tbt::new(x3, nc, fc);
    run_test(traces_with_expected_value.clone(), &atoms, &tbt).unwrap();
}

#[test]
fn test_until() {
    let traces_with_expected_value = vec![
        (
            vec![
                1.0, 3.0, 3.0, 4.0, 5.0, 1.0, 2.0, -1.5, -2.0, -3.0, -4.0, -5.0,
            ],
            1.0,
        ),
        (
            vec![
                2.0, 3.0, 3.0, 4.0, 5.0, 3.0, 1.0, -1.5, -2.0, -3.0, -4.0, -5.0,
            ],
            1.0,
        ),
        (
            vec![
                2.0, 3.0, 3.0, 4.0, 5.0, 3.0, 2.0, -1.5, -2.0, -3.0, -4.0, -5.0,
            ],
            1.5,
        ),
        (
            vec![
                2.0, 3.0, 3.0, 4.0, 5.0, 3.0, 2.0, -1.5, 2.0, 3.0, 4.0, -500000.0,
            ],
            1.5,
        ),
        (
            vec![2.0, 3.0, 3.0, 4.0, 5.0, 3.0, 2.0, 1.5, 2.0, 3.0, 4.0, -1.0],
            1.0,
        ),
        (
            vec![-2.0, 3.0, 3.0, 4.0, 5.0, 3.0, 2.0, 1.5, 2.0, 3.0, 4.0, 1.0],
            2.0,
        ),
        (
            vec![2.0, 3.0, 3.0, 4.0, 5.0, 3.0, 2.0, 3.5, 2.0, 3.0, 4.0, 3.0],
            -2.0,
        ),
        (
            vec![2.0, 3.0, 3.0, 4.0, 5.0, 3.0, 2.0, 1.5, 2.0, 3.0, 4.0, 1.0],
            -1.0,
        ),
        (
            vec![2.0, 3.0, 3.0, 4.0, 5.0, 3.0, 2.0, 1.5, 2.0, 3.0, 4.0, 10.0],
            -1.5,
        ),
    ];
    let mut fc: usize = 0;
    let mut nc: usize = 0;
    let mut atoms: Vec<Atom> = Vec::new();
    let x1 = Stl::atomic(&mut fc, atoms.len());
    atoms.push(|a: &[f32]| a[0]);
    let x2 = Stl::atomic(&mut fc, atoms.len());
    atoms.push(|a: &[f32]| -a[0]);
    let x3 = Stl::until(&mut fc, x1, x2);
    let x4 = TbtNode::leaf(&mut nc, x3, String::from("until"));
    let tbt = Tbt::new(x4, nc, fc);
    run_test(traces_with_expected_value, &atoms, &tbt).unwrap();
}

#[test]
fn test_until_interval() {
    let traces_with_expected_value = vec![
        (
            vec![
                1.0, 3.0, 3.0, 4.0, 5.0, 1.0, 2.0, -1.5, -2.0, -3.0, -4.0, -5.0,
            ],
            1.0,
        ),
        (
            vec![
                2.0, 3.0, 3.0, 4.0, 5.0, 3.0, 1.0, -1.5, -2.0, -3.0, -4.0, -5.0,
            ],
            1.0,
        ),
        (
            vec![
                2.0, 3.0, 3.0, 4.0, 5.0, 3.0, 2.0, -1.5, -2.0, -3.0, -4.0, -5.0,
            ],
            1.5,
        ),
        (
            vec![
                2.0, 3.0, 3.0, 4.0, 5.0, 3.0, 2.0, -1.5, 2.0, 3.0, 4.0, -500000.0,
            ],
            1.5,
        ),
        (
            vec![2.0, 3.0, 3.0, 4.0, 5.0, 3.0, 2.0, 1.5, 2.0, 3.0, 4.0, -1.0],
            1.0,
        ),
        (
            vec![-2.0, 3.0, 3.0, 4.0, 5.0, 3.0, 2.0, 1.5, 2.0, 3.0, 4.0, 1.0],
            2.0,
        ),
        (
            vec![2.0, 3.0, 3.0, 4.0, 5.0, 3.0, 2.0, 3.5, 2.0, 3.0, 4.0, 3.0],
            -2.0,
        ),
        (
            vec![2.0, 3.0, 3.0, 4.0, 5.0, 3.0, 2.0, 1.5, 2.0, 3.0, 4.0, 1.0],
            -1.0,
        ),
        (
            vec![2.0, 3.0, 3.0, 4.0, 5.0, 3.0, 2.0, 1.5, 2.0, 3.0, 4.0, 10.0],
            -1.5,
        ),
    ];
    let mut fc: usize = 0;
    let mut nc: usize = 0;
    let mut atoms: Vec<Atom> = Vec::new();
    let x1 = Stl::atomic(&mut fc, atoms.len());
    atoms.push(|a: &[f32]| a[0]);
    let x2 = Stl::atomic(&mut fc, atoms.len());
    atoms.push(|a: &[f32]| -a[0]);
    let x3 = Stl::until_interval(&mut fc, 0, usize::MAX, x1, x2);
    let x4 = TbtNode::leaf(&mut nc, x3, String::from("until_interval"));
    let tbt = Tbt::new(x4, nc, fc);
    run_test(traces_with_expected_value, &atoms, &tbt).unwrap();
    let traces_with_expected_value = vec![
        (
            vec![
                1.0, 3.0, 3.0, 4.0, 5.0, 0.0, 2.0, -1.5, -2.0, -3.0, -4.0, -5.0,
            ],
            0.0,
        ),
        (
            vec![
                2.0, 3.0, 3.0, 4.0, 5.0, 3.0, 1.0, -1.5, -2.0, -3.0, -4.0, -5.0,
            ],
            1.0,
        ),
        (
            vec![
                2.0, 3.0, 3.0, 0.0, 5.0, 3.0, 1.0, -1.5, -2.0, -3.0, -4.0, -5.0,
            ],
            0.0,
        ),
        (
            vec![
                2.0, 3.0, 3.0, 4.0, 5.0, 3.0, 2.0, -1.5, -2.0, -3.0, -4.0, -5.0,
            ],
            1.5,
        ),
        (
            vec![
                2.0, 3.0, 3.0, 4.0, 5.0, 3.0, 2.0, -1.5, 2.0, 3.0, 4.0, -500000.0,
            ],
            1.5,
        ),
        (
            vec![2.0, 3.0, 3.0, 4.0, 5.0, 3.0, 2.0, 1.5, 2.0, 3.0, 4.0, -1.0],
            1.0,
        ),
        (
            vec![2.0, 3.0, 3.0, 4.0, 5.0, 3.0, 2.0, 1.5, 2.0, 3.0, 4.0, -3.0],
            1.5,
        ),
        (
            vec![-1.0, 3.0, 3.0, -2.0, 5.0, 3.0, 2.0, 1.5, 2.0, 3.0, 4.0, 1.0],
            2.0,
        ),
        (
            vec![1.0, 3.0, 3.0, 4.0, 5.0, 3.0, 2.0, 3.5, 2.0, 3.0, 4.0, 3.0],
            -2.0,
        ),
        (
            vec![2.0, 3.0, 3.0, 4.0, 5.0, 3.0, 2.0, 1.5, 2.0, 3.0, 4.0, 1.0],
            -1.0,
        ),
        (
            vec![2.0, 3.0, 3.0, 4.0, 5.0, 3.0, 2.0, 1.5, 2.0, 3.0, 4.0, 10.0],
            -1.5,
        ),
        (vec![2.0, 3.0], f32::NEG_INFINITY),
        (vec![2.0, -3.0], f32::NEG_INFINITY),
        (vec![-2.0, -3.0], f32::NEG_INFINITY),
        (vec![-2.0, 3.0], f32::NEG_INFINITY),
    ];
    let mut fc: usize = 0;
    let mut nc: usize = 0;
    let mut atoms: Vec<Atom> = Vec::new();
    let x1 = Stl::atomic(&mut fc, atoms.len());
    atoms.push(|a: &[f32]| a[0]);
    let x2 = Stl::atomic(&mut fc, atoms.len());
    atoms.push(|a: &[f32]| -a[0]);
    let x3 = Stl::until_interval(&mut fc, 3, usize::MAX, x1, x2);
    let x4 = TbtNode::leaf(&mut nc, x3, String::from("until_interval"));
    let tbt = Tbt::new(x4, nc, fc);
    run_test(traces_with_expected_value, &atoms, &tbt).unwrap();
    let traces_with_expected_value = vec![
        (
            vec![
                1.0, 3.0, 3.0, 4.0, 5.0, 0.0, 2.0, -1.5, -2.0, -3.0, -4.0, -5.0,
            ],
            0.0,
        ),
        (
            vec![
                2.0, 3.0, 3.0, 4.0, 5.0, -3.0, 1.0, -1.5, -2.0, -3.0, -4.0, -5.0,
            ],
            2.0,
        ),
        (
            vec![
                2.0, 3.0, 3.0, 0.0, 5.0, -1.0, 1.0, -1.5, -2.0, -3.0, -4.0, -5.0,
            ],
            0.0,
        ),
        (
            vec![
                2.0, 3.0, 1.0, 4.0, 5.0, -3.0, 2.0, -1.5, -2.0, -3.0, -4.0, -5.0,
            ],
            1.0,
        ),
        (
            vec![
                2.0, 3.0, 3.0, 4.0, 1.0, -3.0, 2.0, -1.5, 2.0, 3.0, 4.0, -500000.0,
            ],
            1.0,
        ),
        (
            vec![2.0, 3.0, 3.0, 4.0, -5.0, 1.0, 2.0, 1.5, 2.0, 3.0, 4.0, -1.0],
            2.0,
        ),
        (
            vec![-1.0, 3.0, 3.0, 4.0, 5.0, 3.0, 2.0, 1.5, 2.0, 3.0, 4.0, -3.0],
            1.0,
        ),
        (
            vec![1.0, 3.0, 3.0, 3.0, 5.0, 3.0, 2.0, 1.5, 2.0, 3.0, 4.0, 1.0],
            -1.0,
        ),
        (
            vec![4.0, 3.0, 3.0, 4.0, 1.0, 3.0, 2.0, 3.5, 2.0, 3.0, 4.0, 3.0],
            -1.0,
        ),
        (
            vec![2.0, 3.0, 3.0, 4.0, 5.0, 1.0, 2.0, 1.5, 2.0, 3.0, 4.0, 1.0],
            -1.0,
        ),
        (vec![2.0, 3.0, 3.0, 4.0], -2.0),
        (vec![2.0, 3.0, 3.0, -4.0], 2.0),
        (vec![4.0, 3.0, 11.0, -4.0], 3.0),
        (vec![-1.0, 3.0, 2.0, -2.0], 1.0),
        (vec![2.0, -1.0, 2.0, -2.0], 1.0),
        (vec![1.0, -13.0, 2.0, -2.0], 1.0),
    ];
    let mut fc: usize = 0;
    let mut nc: usize = 0;
    let mut atoms: Vec<Atom> = Vec::new();
    let x1 = Stl::atomic(&mut fc, atoms.len());
    atoms.push(|a: &[f32]| a[0]);
    let x2 = Stl::atomic(&mut fc, atoms.len());
    atoms.push(|a: &[f32]| -a[0]);
    let x3 = Stl::until_interval(&mut fc, 0, 5, x1, x2);
    let x4 = TbtNode::leaf(&mut nc, x3, String::from("until_interval"));
    let tbt = Tbt::new(x4, nc, fc);
    run_test(traces_with_expected_value, &atoms, &tbt).unwrap();
    let traces_with_expected_value = vec![
        (
            vec![
                1.0, 3.0, 3.0, 4.0, 5.0, 0.0, 2.0, -1.5, -2.0, -3.0, -4.0, -5.0,
            ],
            0.0,
        ),
        (
            vec![
                2.0, 3.0, 3.0, 4.0, 5.0, 3.0, 1.0, -1.5, -2.0, -3.0, -4.0, -5.0,
            ],
            1.0,
        ),
        (
            vec![
                2.0, 3.0, 3.0, 2.0, 5.0, 3.0, 4.0, -3.5, -2.0, -3.0, -4.0, -5.0,
            ],
            2.0,
        ),
        (
            vec![
                2.0, 3.0, 3.0, 4.0, 5.0, 3.0, 2.0, -1.5, -2.0, -3.0, -4.0, -5.0,
            ],
            1.5,
        ),
        (
            vec![
                2.0, 3.0, 3.0, 4.0, 5.0, 3.0, -2.0, -1.5, 2.0, 3.0, 4.0, -500000.0,
            ],
            2.0,
        ),
        (
            vec![
                2.0, 3.0, 3.0, 4.0, 5.0, -3.0, 1.0, -1.5, 2.0, 3.0, 4.0, -1.0,
            ],
            3.0,
        ),
        (
            vec![
                2.0, 3.0, 3.0, -4.0, 5.0, 3.0, 1.0, -1.5, 2.0, 3.0, 4.0, -3.0,
            ],
            4.0,
        ),
        (
            vec![-1.0, 3.0, 3.0, -2.0, 5.0, 3.0, 2.0, 1.5, 2.0, 3.0, 4.0, 1.0],
            2.0,
        ),
        (
            vec![-1.0, 3.0, 3.0, -2.0, 5.0, 3.0, 2.0, 1.5, 2.0, 3.0, 4.0, 1.0],
            2.0,
        ),
        (
            vec![-1.0, 3.0, 3.0, 2.0, 5.0, 3.0, 1.0, 1.5, 2.0, 3.0, 4.0, 1.0],
            -1.0,
        ),
        (
            vec![-1.0, 3.0, 3.0, 2.0, 5.0, 3.0, 2.0, 1.5, 2.0, 3.0, 4.0, 1.0],
            -1.5,
        ),
        (
            vec![-1.0, 3.0, 3.0, 0.0, 5.0, 3.0, 2.0, 1.5, 2.0, 3.0, 4.0, 1.0],
            0.0,
        ),
        (vec![2.0, 3.0, 3.0, 4.0], -4.0),
        (vec![2.0, 3.0, 3.0, -4.0], 4.0),
        (vec![2.0, 3.0], f32::NEG_INFINITY),
        (vec![2.0, -3.0], f32::NEG_INFINITY),
        (vec![-2.0, -3.0], f32::NEG_INFINITY),
        (vec![-2.0, 3.0], f32::NEG_INFINITY),
    ];
    let mut fc: usize = 0;
    let mut nc: usize = 0;
    let mut atoms: Vec<Atom> = Vec::new();
    let x1 = Stl::atomic(&mut fc, atoms.len());
    atoms.push(|a: &[f32]| a[0]);
    let x2 = Stl::atomic(&mut fc, atoms.len());
    atoms.push(|a: &[f32]| -a[0]);
    let x3 = Stl::until_interval(&mut fc, 3, 8, x1, x2);
    let x4 = TbtNode::leaf(&mut nc, x3, String::from("until_interval"));
    let tbt = Tbt::new(x4, nc, fc);
    run_test(traces_with_expected_value, &atoms, &tbt).unwrap();
    let traces_with_expected_value = vec![
        (
            vec![1.0, 2.0, 3.0, 4.0, 5.0, 10.0, 2.0, -1.0, 2.0, 3.0, 4.0, 5.0],
            -5.0,
        ),
        (
            vec![
                -5.0, 22.0, -13.0, 4.0, -5.0, -10.0, 21.0, 11.0, 32.0, 3.0, 14.0, -10.0,
            ],
            5.0,
        ),
    ];
    let mut fc: usize = 0;
    let mut nc: usize = 0;
    let mut atoms: Vec<Atom> = Vec::new();
    let x1 = Stl::atomic(&mut fc, atoms.len());
    atoms.push(|a: &[f32]| a[0]);
    let x2 = Stl::atomic(&mut fc, atoms.len());
    atoms.push(|a: &[f32]| -a[0]);
    let x3 = Stl::until_interval(&mut fc, 4, 4, x1, x2);
    let x4 = TbtNode::leaf(&mut nc, x3, String::from("until_interval"));
    let tbt = Tbt::new(x4, nc, fc);
    run_test(traces_with_expected_value.clone(), &atoms, &tbt).unwrap();
    let traces_with_expected_value = vec![(
        vec![1.0, 2.0, 3.0, 4.0, 5.0, 10.0, 2.0, -1.0, 2.0, 3.0, 4.0, 5.0],
        f32::NEG_INFINITY,
    )];
    let mut fc: usize = 0;
    let mut nc: usize = 0;
    let mut atoms: Vec<Atom> = Vec::new();
    let x1 = Stl::atomic(&mut fc, atoms.len());
    atoms.push(|a: &[f32]| a[0]);
    let x2 = Stl::atomic(&mut fc, atoms.len());
    atoms.push(|a: &[f32]| -a[0]);
    let x3 = Stl::until_interval(&mut fc, 4, 3, x1, x2);
    let x4 = TbtNode::leaf(&mut nc, x3, String::from("until_interval"));
    let tbt = Tbt::new(x4, nc, fc);
    run_test(traces_with_expected_value.clone(), &atoms, &tbt).unwrap();
}

#[test]
fn test_eventually_globally() {
    let traces_with_expected_value = vec![
        (
            vec![
                -1.0, -3.0, -3.0, -4.0, -5.0, -1.0, 2.0, 1.5, 2.0, -3.0, -4.0, -5.0,
            ],
            1.5,
        ),
        (
            vec![
                -1.0, -3.0, -3.0, -4.0, -5.0, -1.0, 2.0, 1.5, -1.0, -3.0, -4.0, -5.0,
            ],
            -1.0,
        ),
    ];
    let mut fc: usize = 0;
    let mut nc: usize = 0;
    let mut atoms: Vec<Atom> = Vec::new();
    let x1 = Stl::atomic(&mut fc, atoms.len());
    atoms.push(|a: &[f32]| a[0]);
    let x2 = Stl::globally_interval(&mut fc, 3, 5, x1);
    let x3 = Stl::eventually(&mut fc, x2);
    let x4 = TbtNode::leaf(&mut nc, x3, String::from("eventually_globally"));
    let tbt = Tbt::new(x4, nc, fc);
    run_test(traces_with_expected_value, &atoms, &tbt).unwrap();
}

#[test]
fn test_sequence() {
    let traces_with_expected_value = vec![
        (
            vec![1.0, 1.0, 1.0, 1.0, 1.0, 1.0, 1.0, 1.0, 1.0, -0.5, -1.0],
            0.5,
        ),
        (
            vec![1.0, 1.0, 1.0, 1.0, 1.0, 1.0, 1.0, 1.0, 1.0, -1.0, -0.5],
            0.5,
        ),
        (
            vec![0.5, 1.0, 1.0, 1.0, 1.0, 1.0, 1.0, 1.0, 1.0, 1.0, -1.0],
            0.5,
        ),
        (
            vec![1.0, 1.0, 1.0, 1.0, -0.5, -1.0, -1.0, -1.0, -1.0, -1.0, -1.0],
            0.5,
        ),
        (
            vec![1.0, 1.0, 1.0, 1.0, -1.5, -1.0, -1.0, -1.0, -1.0, -1.0, 1.0],
            -1.0,
        ),
        (
            vec![1.0, 1.0, 1.0, 1.0, -1.5, 1.0, -1.0, -1.0, -1.0, -1.0, -1.0],
            -1.0,
        ),
        (
            vec![1.0, 1.0, 1.0, 1.0, -1.5, 1.5, -1.0, -1.0, -1.0, -1.0, -1.0],
            -1.5,
        ),
        (
            vec![1.0, 1.0, 1.0, 1.0, 1.0, 1.0, 1.0, 1.0, 1.0, 1.0, 1.0],
            1.0,
        ),
        (vec![1.0], 1.0),
        (vec![-1.0], -1.0),
        (vec![1.0, -1.0], 1.0),
        (vec![1.0, 1.0], 1.0),
        (vec![-1.0, -1.0], -1.0),
        (vec![-1.0, 1.0], -1.0),
    ];
    let mut fc: usize = 0;
    let mut nc: usize = 0;
    let mut atoms: Vec<Atom> = Vec::new();
    let x1 = Stl::atomic(&mut fc, atoms.len());
    atoms.push(|a: &[f32]| a[0]);
    let x2 = Stl::globally(&mut fc, x1);
    let x3 = TbtNode::leaf(&mut nc, x2, String::from("globally"));
    let x4 = Stl::atomic(&mut fc, atoms.len());
    atoms.push(|a: &[f32]| -a[0]);
    let x5 = Stl::globally(&mut fc, x4);
    let x6 = TbtNode::leaf(&mut nc, x5, String::from("globally"));
    let x7 = TbtNode::sequence(&mut nc, x3, x6);
    let tbt = Tbt::new(x7, nc, fc);
    run_test(traces_with_expected_value, &atoms, &tbt).unwrap();
}

#[test]
fn test_fallback() {
    let traces_with_expected_value = vec![
        (
            vec![1.0, 1.0, 1.0, 1.0, 1.0, 1.0, 1.0, 1.0, 1.0, -1.0, -1.0],
            1.0,
        ),
        (
            vec![1.0, 1.0, 1.0, 1.0, 1.0, 1.0, 1.0, 1.0, 1.0, 1.0, 1.0],
            1.0,
        ),
        (
            vec![1.0, 1.0, 1.0, -1.0, 1.0, 1.0, 1.0, 1.0, 1.0, 1.0, 1.0],
            1.0,
        ),
        (
            vec![
                -1.0, -1.0, -1.0, -1.0, -1.0, 1.0, -1.0, -1.0, -1.0, -1.0, -1.0,
            ],
            1.0,
        ),
        (vec![1.0], 1.0),
        (vec![-1.0], 1.0),
        (vec![1.0, -1.0], 1.0),
        (vec![1.0, 1.0], 1.0),
        (vec![-1.0, 1.0], 1.0),
    ];
    let mut fc: usize = 0;
    let mut nc: usize = 0;
    let mut atoms: Vec<Atom> = Vec::new();
    let x1 = Stl::atomic(&mut fc, atoms.len());
    atoms.push(|a: &[f32]| a[0]);
    let x2 = Stl::globally(&mut fc, x1);
    let x3 = TbtNode::leaf(&mut nc, x2, String::from("globally"));
    let x4 = Stl::atomic(&mut fc, atoms.len());
    atoms.push(|a: &[f32]| -a[0]);
    let x5 = Stl::globally(&mut fc, x4);
    let x6 = TbtNode::leaf(&mut nc, x5, String::from("globally"));
    let x7 = TbtNode::fallback(&mut nc, vec![x3, x6]);
    let tbt = Tbt::new(x7, nc, fc);
    run_test(traces_with_expected_value, &atoms, &tbt).unwrap();
}

#[test]
fn test_parallel() {
    let traces_with_expected_value = vec![
        (
            vec![1.0, 1.0, 1.0, 1.0, 1.0, 1.0, 1.0, 1.0, 1.0, 1.0, 1.0],
            0.5,
        ),
        (
            vec![1.0, 1.0, 1.0, 1.0, 1.0, 1.0, 1.0, -1.0, 1.0, 1.0, 1.0],
            1.0,
        ),
        (
            vec![1.0, 1.0, 1.0, 1.0, 1.0, 1.0, 1.0, 0.1, 1.0, 1.0, 1.0],
            -0.1,
        ),
        (vec![1.0], 0.5),
        (vec![-1.0], 1.0),
        (vec![1.0, -1.0], 1.0),
        (vec![1.0, 1.0], 0.5),
        (vec![-1.0, 1.0], 1.0),
    ];
    let mut fc: usize = 0;
    let mut nc: usize = 0;
    let mut atoms: Vec<Atom> = Vec::new();
    let x1 = Stl::atomic(&mut fc, atoms.len());
    atoms.push(|a: &[f32]| a[0] - 0.5);
    let x2 = Stl::globally(&mut fc, x1);
    let x3 = TbtNode::leaf(&mut nc, x2, String::from("globally"));
    let x4 = Stl::atomic(&mut fc, atoms.len());
    atoms.push(|a: &[f32]| -a[0]);
    let x5 = Stl::eventually(&mut fc, x4);
    let x6 = TbtNode::leaf(&mut nc, x5, String::from("globally"));
    let x7 = TbtNode::parallel(&mut nc, 1, vec![x3, x6]);
    let tbt = Tbt::new(x7, nc, fc);
    run_test(traces_with_expected_value, &atoms, &tbt).unwrap();
    let traces_with_expected_value = vec![
        (
            vec![1.0, 1.0, 1.0, 1.0, 1.0, 1.0, 1.0, 1.0, 1.0, 1.0, 1.0],
            -1.0,
        ),
        (
            vec![1.0, 1.0, 1.0, 1.0, 1.0, 1.0, 1.0, -0.5, 1.0, 1.0, 1.0],
            -1.0,
        ),
        (
            vec![1.0, 1.0, 1.0, 1.0, 1.0, 1.0, 1.0, 0.6, 1.0, 1.0, 1.0],
            -0.6,
        ),
        (vec![1.0], -1.0),
        (vec![-1.0], -1.5),
        (vec![1.0, -1.0], -1.5),
        (vec![1.0, 1.0], -1.0),
        (vec![-1.0, 1.0], -1.5),
    ];
    let mut fc: usize = 0;
    let mut nc: usize = 0;
    let mut atoms: Vec<Atom> = Vec::new();
    let x1 = Stl::atomic(&mut fc, atoms.len());
    atoms.push(|a: &[f32]| a[0] - 0.5);
    let x2 = Stl::globally(&mut fc, x1);
    let x3 = TbtNode::leaf(&mut nc, x2, String::from("globally"));
    let x4 = Stl::atomic(&mut fc, atoms.len());
    atoms.push(|a: &[f32]| -a[0]);
    let x5 = Stl::eventually(&mut fc, x4);
    let x6 = TbtNode::leaf(&mut nc, x5, String::from("globally"));
    let x7 = TbtNode::parallel(&mut nc, 2, vec![x3, x6]);
    let tbt = Tbt::new(x7, nc, fc);
    run_test(traces_with_expected_value, &atoms, &tbt).unwrap();
}

#[test]
fn test_timeout() {
    let traces_with_expected_value = vec![
        (
            vec![1.0, 1.0, 1.0, 1.0, 1.0, 1.0, 1.0, 1.0, 1.0, 1.0, 1.0],
            1.0,
        ),
        (
            vec![1.0, 1.0, 1.0, 1.0, -1.0, -1.0, -1.0, -1.0, -1.0, -1.0, -1.0],
            1.0,
        ),
        (
            vec![1.0, 1.0, 1.0, -1.0, 1.0, 1.0, 1.0, 1.0, 1.0, 1.0, 1.0],
            -1.0,
        ),
        (
            vec![-1.0, 1.0, 1.0, 1.0, 1.0, 1.0, 1.0, 1.0, 1.0, 1.0, 1.0],
            -1.0,
        ),
        (vec![1.0], 1.0),
        (vec![-1.0], -1.0),
        (vec![1.0, -1.0], -1.0),
        (vec![1.0, 1.0], 1.0),
        (vec![-1.0, 1.0], -1.0),
    ];
    let mut fc: usize = 0;
    let mut nc: usize = 0;
    let mut atoms: Vec<Atom> = Vec::new();
    let x1 = Stl::atomic(&mut fc, atoms.len());
    atoms.push(|a: &[f32]| a[0]);
    let x2 = Stl::globally(&mut fc, x1);
    let x3 = TbtNode::leaf(&mut nc, x2, String::from("globally"));
    let x4 = TbtNode::timeout(&mut nc, 4, x3);
    let tbt = Tbt::new(x4, nc, fc);
    run_test(traces_with_expected_value, &atoms, &tbt).unwrap();
}

#[test]
fn test_kleene() {
    let traces_with_expected_value = vec![
        (vec![1.0, 1.0, 1.0, 1.0, 3.0, 4.0], 1.0),
        (vec![1.0, 1.0, 1.0, 1.0, 3.0, 4.0], 1.0),
    ];
    let mut fc: usize = 0;
    let mut nc: usize = 0;
    let mut atoms: Vec<Atom> = Vec::new();
    let x1 = Stl::atomic(&mut fc, atoms.len());
    atoms.push(|a: &[f32]| a[0]);
    let x2 = Stl::globally(&mut fc, x1);
    let x3 = TbtNode::leaf(&mut nc, x2, String::from("globally"));
    let x4 = TbtNode::kleene(&mut nc, 2, x3);
    let tbt = Tbt::new(x4, nc, fc);
    run_test(traces_with_expected_value, &atoms, &tbt).unwrap();
    let traces_with_expected_value = vec![
        (vec![-1.0, -1.0, -1.0, 1.0, -3.0, 4.0], 4.0),
        (vec![1.0, -1.0, -1.0, 1.0, -3.0, -4.0], 1.0),
        (vec![-1.0, -1.0, -1.0, 1.0, -3.0, -4.0], 1.0),
        (vec![-1.0], -1.0),
        (vec![1.0, 2.0], 2.0),
    ];
    let mut fc: usize = 0;
    let mut nc: usize = 0;
    let mut atoms: Vec<Atom> = Vec::new();
    let x1 = Stl::atomic(&mut fc, atoms.len());
    atoms.push(|a: &[f32]| a[0]);
    let x2 = Stl::eventually(&mut fc, x1);
    let x3 = TbtNode::leaf(&mut nc, x2, String::from("eventually"));
    let x4 = TbtNode::kleene(&mut nc, 2, x3);
    let tbt = Tbt::new(x4, nc, fc);
    run_test(traces_with_expected_value, &atoms, &tbt).unwrap();
    let traces_with_expected_value = vec![(vec![-1.0, -1.0, -1.0, 1.0, -3.0, 4.0], 4.0)];
    let mut fc: usize = 0;
    let mut nc: usize = 0;
    let mut atoms: Vec<Atom> = Vec::new();
    let x1 = Stl::atomic(&mut fc, atoms.len());
    atoms.push(|a: &[f32]| a[0]);
    let x2 = Stl::eventually(&mut fc, x1);
    let x3 = TbtNode::leaf(&mut nc, x2, String::from("eventually"));
    let x4 = TbtNode::kleene_inf(&mut nc, x3, 6);
    let tbt = Tbt::new(x4, nc, fc);
    run_test(traces_with_expected_value, &atoms, &tbt).unwrap();
    let traces_with_expected_value = vec![
        (vec![1.0, 1.0, 1.0, 1.0, -3.0, 4.0, 4.0, -4.0], 1.0),
        (vec![-1.0, 1.0, 1.0, 1.0, -3.0, 4.0, 4.0, -4.0], -1.0),
        (vec![1.0, 1.0, 1.0, 1.0, -3.0, 4.0, 4.0, 4.0], 1.0),
        (vec![1.0, 1.0, 1.0, 1.0, 3.0, 4.0, 4.0, 4.0], -1.0),
    ];
    let mut fc: usize = 0;
    let mut nc: usize = 0;
    let mut atoms: Vec<Atom> = Vec::new();
    let x1 = Stl::atomic(&mut fc, atoms.len());
    atoms.push(|a: &[f32]| a[0]);
    let x2 = Stl::globally(&mut fc, x1);
    let x3 = TbtNode::leaf(&mut nc, x2, String::from("globally"));
    let x4 = Stl::atomic(&mut fc, atoms.len());
    atoms.push(|a: &[f32]| -a[0]);
    let x5 = Stl::eventually(&mut fc, x4);
    let x6 = TbtNode::leaf(&mut nc, x5, String::from("eventually"));
    let x7 = TbtNode::sequence(&mut nc, x3, x6);
    let x8 = TbtNode::kleene_inf(&mut nc, x7, 6);
    let tbt = Tbt::new(x8, nc, fc);
    run_test(traces_with_expected_value, &atoms, &tbt).unwrap();
}

#[test]
fn test_even() {
    let trace_length: usize = 10;
    let traces_with_expected_value = vec![
        (vec![0.0, 1.0, 3.0, 3.0, 4.0, 5.0, 6.0, 7.0, 8.0, 9.0], -1.0),
        (
            vec![1.0, 2.0, 3.0, 4.0, 5.0, 6.0, 7.0, 8.0, 9.0, 10.0],
            -1.0,
        ),
        (vec![0.0, 1.0, 1.0, 3.0, 4.0, 5.0, 6.0, 7.0, 8.0, 9.0], -1.0),
        (vec![0.0, 1.0, 2.0, 3.0, 4.0, 5.0, 6.0, 7.0, 8.0, 9.0], 1.0),
        (vec![2.0, 2.0, 2.0, 2.0, 2.0, 2.0, 2.0, 2.0, 2.0, 2.0], 1.0),
    ];
    let mut fc: usize = 0;
    let mut nc: usize = 0;
    let mut atoms: Vec<Atom> = Vec::new();
    let x1 = Stl::atomic(&mut fc, atoms.len());
    atoms.push(|a: &[f32]| { let a = a[0] as i32; if a % 2 == 0 { 1.0 } else { -1.0 } });
    let x2 = Stl::atomic(&mut fc, atoms.len());
    atoms.push(|_: &[f32]| 1.0);
    let x3 = Stl::eventually_interval(&mut fc, 1, 1, x2);
    let x4 = Stl::neg(&mut fc, x3);
    let x5 = Stl::conjunction(&mut fc, x1, x4);
    let x6 = TbtNode::leaf(&mut nc, x5, String::from("even"));
    let x7 = Stl::atomic(&mut fc, atoms.len());
    atoms.push(|_: &[f32]| 1.0);
    let x8 = Stl::eventually_interval(&mut fc, 1, 1, x7);
    let x9 = Stl::neg(&mut fc, x8);
    let x10 = TbtNode::leaf(&mut nc, x9, String::from("true"));
    let x11 = TbtNode::sequence(&mut nc, x6, x10);
    let x12 = TbtNode::kleene_inf(&mut nc, x11, trace_length);
    let tbt = Tbt::new(x12, nc, fc);
    run_test(traces_with_expected_value, &atoms, &tbt).unwrap();
    let trace_length: usize = 9;
    let traces_with_expected_value = vec![
        (vec![0.0, 1.0, 3.0, 3.0, 4.0, 5.0, 6.0, 7.0, 8.0], -1.0),
        (vec![1.0, 2.0, 3.0, 4.0, 5.0, 6.0, 7.0, 8.0, 9.0], -1.0),
        (vec![0.0, 1.0, 1.0, 3.0, 4.0, 5.0, 6.0, 7.0, 8.0], -1.0),
        (vec![0.0, 1.0, 2.0, 3.0, 4.0, 5.0, 6.0, 7.0, 8.0], 1.0),
        (vec![2.0, 2.0, 2.0, 2.0, 2.0, 2.0, 2.0, 2.0, 2.0], 1.0),
    ];
    let mut fc: usize = 0;
    let mut nc: usize = 0;
    let mut atoms: Vec<Atom> = Vec::new();
    let x1 = Stl::atomic(&mut fc, atoms.len());
    atoms.push(|a: &[f32]| { let a = a[0] as i32; if a % 2 == 0 { 1.0 } else { -1.0 } });
    let x2 = Stl::atomic(&mut fc, atoms.len());
    atoms.push(|_: &[f32]| 1.0);
    let x3 = Stl::eventually_interval(&mut fc, 1, 1, x2);
    let x4 = Stl::neg(&mut fc, x3);
    let x5 = Stl::conjunction(&mut fc, x1, x4);
    let x6 = TbtNode::leaf(&mut nc, x5, String::from("even"));
    let x7 = Stl::atomic(&mut fc, atoms.len());
    atoms.push(|_: &[f32]| 1.0);
    let x8 = Stl::eventually_interval(&mut fc, 1, 1, x7);
    let x9 = Stl::neg(&mut fc, x8);
    let x10 = TbtNode::leaf(&mut nc, x9, String::from("true"));
    let x11 = TbtNode::sequence(&mut nc, x6, x10);
    let x12 = TbtNode::kleene_inf(&mut nc, x11, trace_length);
    let tbt = Tbt::new(x12, nc, fc);
    run_test(traces_with_expected_value, &atoms, &tbt).unwrap();
}
