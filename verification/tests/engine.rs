use autograd::{BasicFn, FnInput, FnKind, Graph, Node, NodeGradPair, Scalar};
use rand::Rng;

/// Plain double-precision scalar for exercising the engine.
///
/// Custom operation tags: 1 = two-input max, 2 = max against 2.0,
/// 3 = sine supplied as a user operation.
#[derive(Clone, Copy, Debug, PartialEq)]
struct F(f64);

impl Scalar for F {
    // The `*_spec` items below are the ghost half of the trait. They exist
    // only for verification of the library; nothing ever calls them at run
    // time, so they are stubbed out here.
    fn one_spec() -> F {
        unreachable!()
    }

    fn add_spec(_: F, _: F) -> F {
        unreachable!()
    }

    fn mul_spec(_: F, _: F) -> F {
        unreachable!()
    }

    fn fwd_spec(_: FnKind, _: autograd::ArgList<F>) -> F {
        unreachable!()
    }

    fn grad_spec(_: FnKind, _: autograd::ArgList<F>) -> autograd::ArgList<F> {
        unreachable!()
    }

    fn grad_spec_arity(_: FnKind, _: autograd::ArgList<F>) {
        unreachable!()
    }

    fn one() -> F {
        F(1.0)
    }

    fn add(a: F, b: F) -> F {
        F(a.0 + b.0)
    }

    fn mul(a: F, b: F) -> F {
        F(a.0 * b.0)
    }

    fn fwd(kind: &FnKind, args: &Vec<F>) -> F {
        F(match *kind {
            FnKind::Exp => args[0].0.exp(),
            FnKind::Ln => args[0].0.ln(),
            FnKind::Sin => args[0].0.sin(),
            FnKind::Cos => args[0].0.cos(),
            FnKind::Neg => -args[0].0,
            FnKind::Sub => args[0].0 - args[1].0,
            FnKind::Div => args[0].0 / args[1].0,
            FnKind::Sum => args.iter().map(|a| a.0).sum(),
            FnKind::Product => args.iter().map(|a| a.0).product(),
            FnKind::Custom { tag: 1, .. } => args[0].0.max(args[1].0),
            FnKind::Custom { tag: 2, .. } => args[0].0.max(2.0),
            FnKind::Custom { tag: 3, .. } => args[0].0.sin(),
            FnKind::Custom { .. } => panic!("unknown custom operation"),
        })
    }

    fn grad(kind: &FnKind, args: &Vec<F>) -> Vec<F> {
        match *kind {
            FnKind::Exp => vec![F(args[0].0.exp())],
            FnKind::Ln => vec![F(1.0 / args[0].0)],
            FnKind::Sin => vec![F(args[0].0.cos())],
            FnKind::Cos => vec![F(-args[0].0.sin())],
            FnKind::Neg => vec![F(-1.0)],
            FnKind::Sub => vec![F(1.0), F(-1.0)],
            FnKind::Div => vec![F(1.0 / args[1].0), F(-args[0].0 / args[1].0.powi(2))],
            FnKind::Sum => vec![F(1.0); args.len()],
            FnKind::Product => {
                let mut grad = vec![];
                for i in 0..args.len() {
                    let mut p = 1.0;
                    for (j, a) in args.iter().enumerate() {
                        if j != i {
                            p *= a.0;
                        }
                    }
                    grad.push(F(p));
                }
                grad
            }
            FnKind::Custom { tag: 1, .. } => {
                if args[0].0 > args[1].0 {
                    vec![F(1.0), F(0.0)]
                } else {
                    vec![F(0.0), F(1.0)]
                }
            }
            FnKind::Custom { tag: 2, .. } => {
                if args[0].0 > 2.0 {
                    vec![F(1.0)]
                } else {
                    vec![F(0.0)]
                }
            }
            FnKind::Custom { tag: 3, .. } => vec![F(args[0].0.cos())],
            FnKind::Custom { .. } => panic!("unknown custom operation"),
        }
    }
}

fn node(i: usize) -> FnInput<F> {
    FnInput::Node(i)
}

fn cnst(c: f64) -> FnInput<F> {
    FnInput::Const(F(c))
}

fn value(g: &Graph<F>, i: usize) -> f64 {
    g.node(i).value().0
}

#[test]
fn auto_computational_graph_0() {
    // logistic2(z) = 1.0 / (1.0 + exp(-z)) at z = 1.5
    let mut g: Graph<F> = Graph::new();
    let z = Node::start(&mut g, F(1.5));
    let nz = g.neg(z);
    let e = BasicFn::exp().to_gen_node_fn(&mut g, &vec![node(nz)]);
    let denom = g.add(cnst(1.0), node(e));
    let y = g.div(cnst(1.0), node(denom));

    println!("\ny = {:?}", value(&g, y));
    assert!((value(&g, y) - 0.818).abs() < 1e-3);
}

#[test]
fn auto_computational_graph_1() {
    // somefunc(x, y) = (x*y + exp(x)*exp(y)) / (4.0*y) at (3, 4)
    let mut g: Graph<F> = Graph::new();
    let x = Node::start(&mut g, F(3.0));
    let y = Node::start(&mut g, F(4.0));
    let xy = g.mul(node(x), node(y));
    let ex = BasicFn::exp().to_gen_node_fn(&mut g, &vec![node(x)]);
    let ey = BasicFn::exp().to_gen_node_fn(&mut g, &vec![node(y)]);
    let exey = g.mul(node(ex), node(ey));
    let num = g.add(node(xy), node(exey));
    let den = g.mul(cnst(4.0), node(y));
    let r = g.div(node(num), node(den));

    println!("\ny = {:?}", value(&g, r));
}

#[test]
fn auto_computational_graph_2() {
    // somefunc(x, y) = ln(x*y + max(x, 2.0)) at (3, 2), max as a custom op
    let mut g: Graph<F> = Graph::new();
    let x = Node::start(&mut g, F(3.0));
    let y = Node::start(&mut g, F(2.0));
    let max_fn = BasicFn::new(1, 2).with_info("f64 max");
    let xy = g.mul(node(x), node(y));
    let mx = max_fn.to_gen_node_fn(&mut g, &vec![node(x), cnst(2.0)]);
    let s = g.add(node(xy), node(mx));
    let r = BasicFn::ln().to_gen_node_fn(&mut g, &vec![node(s)]);

    println!("\ny = {:?}", value(&g, r));
}

#[test]
fn auto_grad_0() {
    // f_0(x) = x * sin(x), sine supplied as a custom operation
    let f_1 = |x: f64| x * x.sin();
    let g_1 = |x: f64| x.sin() + x * x.cos();

    let n = 20;
    for i in 0..n {
        let x = (i as f64 / n as f64) * std::f64::consts::TAU;
        let mut g: Graph<F> = Graph::new();
        let xn = Node::start(&mut g, F(x));
        let sin_fn = BasicFn::new(3, 1).with_info("f64 sin");
        let sn = sin_fn.to_gen_node_fn(&mut g, &vec![node(xn)]);
        let y0 = g.mul(node(xn), node(sn));

        let grads = Node::auto_grad(&g, y0);
        let g0 = grads.first().unwrap();

        assert!(value(&g, y0) == f_1(x));
        assert!(value(&g, g0.node()) == x);
        assert!(g0.grad().0 == g_1(x));
    }
}

#[test]
fn auto_grad_1() {
    // f_0(a, b) = ln(a*b + max(a, 2.0)) at (3, 2), max folded into a
    // single-input custom operation
    let mut g: Graph<F> = Graph::new();
    let a = Node::start(&mut g, F(3.0));
    let b = Node::start(&mut g, F(2.0));
    let max_2_fn = BasicFn::new(2, 1).with_info("f64 max");
    let ab = g.mul(node(a), node(b));
    let ma = max_2_fn.to_gen_node_fn(&mut g, &vec![node(a)]);
    let s = g.add(node(ab), node(ma));
    let y = BasicFn::ln().to_gen_node_fn(&mut g, &vec![node(s)]);

    let grads = Node::auto_grad(&g, y);

    assert!(value(&g, y) == 9.0_f64.ln());
    assert!(grads[0].grad().0 == 1.0 / 3.0);
    assert!(grads[1].grad().0 == 1.0 / 3.0);
}

#[test]
fn auto_grad_2() {
    // f_0(x, y, z) = exp(sin(x+y) + cos(y*z) * ln(x*x - z*z))
    let f_1 = |x: f64, y: f64, z: f64| ((x + y).sin() + (y * z).cos() * (x * x - z * z).ln()).exp();
    let g_1_x = |x: f64, y: f64, z: f64| {
        f_1(x, y, z) * ((x + y).cos() + (y * z).cos() / (x * x - z * z) * 2.0 * x)
    };
    let g_1_y = |x: f64, y: f64, z: f64| {
        f_1(x, y, z) * ((x + y).cos() - (y * z).sin() * z * (x * x - z * z).ln())
    };
    let g_1_z = |x: f64, y: f64, z: f64| {
        f_1(x, y, z)
            * (-(y * z).sin() * y * (x * x - z * z).ln()
                - (y * z).cos() / (x * x - z * z) * 2.0 * z)
    };

    let mut rng = rand::thread_rng();

    for _ in 0..10 {
        let z = rng.gen_range(0.1..1.0);
        let x = z + rng.gen_range(0.1..1.0);
        let y = rng.gen_range(2.1..3.9);

        let mut g: Graph<F> = Graph::new();
        let xn = Node::start(&mut g, F(x));
        let yn = Node::start(&mut g, F(y));
        let zn = Node::start(&mut g, F(z));

        let a0 = g.add(node(xn), node(yn));
        let a0 = BasicFn::sin().to_gen_node_fn(&mut g, &vec![node(a0)]);
        let b0 = g.mul(node(yn), node(zn));
        let b0 = BasicFn::cos().to_gen_node_fn(&mut g, &vec![node(b0)]);
        let xx = g.mul(node(xn), node(xn));
        let zz = g.mul(node(zn), node(zn));
        let c0 = g.sub(node(xx), node(zz));
        let c0 = BasicFn::ln().to_gen_node_fn(&mut g, &vec![node(c0)]);
        let bc = g.mul(node(b0), node(c0));
        let d = g.add(node(a0), node(bc));
        let y0 = BasicFn::exp().to_gen_node_fn(&mut g, &vec![node(d)]);

        let y_1 = f_1(x, y, z);
        assert!(value(&g, y0) == y_1);

        let grads = Node::auto_grad(&g, y0);
        let grad_x = g_1_x(x, y, z);
        let grad_y = g_1_y(x, y, z);
        let grad_z = g_1_z(x, y, z);

        for gp in &grads {
            let v = value(&g, gp.node());
            assert!([x, y, z].contains(&v));
            if v == x {
                assert!((grad_x - gp.grad().0).abs() <= 100.0 * f64::EPSILON);
            }
            if v == y {
                assert!((grad_y - gp.grad().0).abs() <= 100.0 * f64::EPSILON);
            }
            if v == z {
                assert!((grad_z - gp.grad().0).abs() <= 100.0 * f64::EPSILON);
            }
        }
    }
}

#[test]
fn value_and_gradient_at_pi_third() {
    // y = x * sin(x) at x = pi/3
    let x = std::f64::consts::FRAC_PI_3;
    let mut g: Graph<F> = Graph::new();
    let xn = Node::start(&mut g, F(x));
    let sn = BasicFn::sin().to_gen_node_fn(&mut g, &vec![node(xn)]);
    let y = g.mul(node(xn), node(sn));

    assert!((value(&g, y) - x * x.sin()).abs() <= 1e-15);

    let grads = Node::auto_grad(&g, y);
    assert_eq!(grads.len(), 1);
    assert_eq!(grads[0].node(), xn);
    assert!((grads[0].grad().0 - (x.sin() + x * x.cos())).abs() <= 1e-15);
}

#[test]
fn backward_pass_is_idempotent() {
    // Two backward passes over the same root, each with fresh queue state,
    // report identical results.
    let mut g: Graph<F> = Graph::new();
    let a = Node::start(&mut g, F(0.7));
    let b = Node::start(&mut g, F(-1.3));
    let ab = g.mul(node(a), node(b));
    let e = BasicFn::exp().to_gen_node_fn(&mut g, &vec![node(ab)]);
    let y = g.add(node(e), node(a));

    let r1 = Node::auto_grad(&g, y);
    let r2 = Node::auto_grad(&g, y);
    assert_eq!(r1.len(), r2.len());
    for (p1, p2) in r1.iter().zip(r2.iter()) {
        assert_eq!(p1.node(), p2.node());
        assert_eq!(p1.grad().0, p2.grad().0);
    }
}

#[test]
fn multi_path_leaf_accumulates_both_branches() {
    // The same leaf feeds the root twice: once through exp and once through
    // neg. The reported gradient is the sum of both branch partials.
    let mut g: Graph<F> = Graph::new();
    let x = Node::start(&mut g, F(0.0));
    let b1 = BasicFn::exp().to_gen_node_fn(&mut g, &vec![node(x)]);
    let b2 = g.neg(x);
    let y = g.add(node(b1), node(b2));

    let grads = Node::auto_grad(&g, y);
    assert_eq!(grads.len(), 1);
    assert_eq!(grads[0].node(), x);
    // d/dx (exp(x) - x) at 0 = exp(0) - 1 = 0
    assert_eq!(grads[0].grad().0, 0.0);

    // A leaf used twice as input of a single product: x * x at 3.
    let mut g2: Graph<F> = Graph::new();
    let x2 = Node::start(&mut g2, F(3.0));
    let y2 = g2.mul(node(x2), node(x2));
    let grads2 = Node::auto_grad(&g2, y2);
    assert_eq!(grads2.len(), 1);
    assert_eq!(grads2[0].grad().0, 6.0);
}

#[test]
fn constants_are_excluded_from_gradient_report() {
    // sum(x, 2.0): the constant contributes to the value but is neither a
    // parent nor reported in the gradient.
    let mut g: Graph<F> = Graph::new();
    let x = Node::start(&mut g, F(5.0));
    let y = g.add(node(x), cnst(2.0));

    assert_eq!(value(&g, y), 7.0);
    assert_eq!(g.node(y).parents, vec![x]);

    let grads = Node::auto_grad(&g, y);
    assert_eq!(grads.len(), 1);
    assert_eq!(grads[0].node(), x);
    assert_eq!(grads[0].grad().0, 1.0);
}

#[test]
fn builtin_operations_forward_and_gradient() {
    let u = vec![F(2.0)];
    assert_eq!(BasicFn::exp().value_fn(&u).0, 2.0_f64.exp());
    assert_eq!(BasicFn::exp().grad_fn(&u)[0].0, 2.0_f64.exp());
    assert_eq!(BasicFn::ln().value_fn(&u).0, 2.0_f64.ln());
    assert_eq!(BasicFn::ln().grad_fn(&u)[0].0, 0.5);
    assert_eq!(BasicFn::sin().value_fn(&u).0, 2.0_f64.sin());
    assert_eq!(BasicFn::sin().grad_fn(&u)[0].0, 2.0_f64.cos());
    assert_eq!(BasicFn::cos().value_fn(&u).0, 2.0_f64.cos());
    assert_eq!(BasicFn::cos().grad_fn(&u)[0].0, -2.0_f64.sin());
    assert_eq!(BasicFn::neg().value_fn(&u).0, -2.0);
    assert_eq!(BasicFn::neg().grad_fn(&u)[0].0, -1.0);

    let b = vec![F(6.0), F(3.0)];
    assert_eq!(BasicFn::sub().value_fn(&b).0, 3.0);
    let sg = BasicFn::sub().grad_fn(&b);
    assert_eq!((sg[0].0, sg[1].0), (1.0, -1.0));
    assert_eq!(BasicFn::div().value_fn(&b).0, 2.0);
    let dg = BasicFn::div().grad_fn(&b);
    assert_eq!((dg[0].0, dg[1].0), (1.0 / 3.0, -6.0 / 9.0));

    let t = vec![F(2.0), F(3.0), F(4.0)];
    assert_eq!(BasicFn::sum().value_fn(&t).0, 9.0);
    let mg = BasicFn::sum().grad_fn(&t);
    assert_eq!((mg[0].0, mg[1].0, mg[2].0), (1.0, 1.0, 1.0));
    assert_eq!(BasicFn::product().value_fn(&t).0, 24.0);
    let pg = BasicFn::product().grad_fn(&t);
    assert_eq!((pg[0].0, pg[1].0, pg[2].0), (12.0, 8.0, 6.0));
}

#[test]
fn node_and_operation_accessors() {
    let mut g: Graph<F> = Graph::new();
    assert_eq!(g.len(), 0);
    let x = Node::start(&mut g, F(1.25));
    assert_eq!(g.len(), 1);
    assert!(g.node(x).is_start());
    assert_eq!(g.node(x).id(), x);
    assert_eq!(g.node(x).value().0, 1.25);
    assert!(g.node(x).grad_value().is_none());

    let y = g.neg(x);
    assert!(!g.node(y).is_start());
    assert_eq!(g.node(y).id(), y);
    assert_eq!(g.node(y).value().0, -1.25);
    let gv = g.node(y).grad_value().unwrap();
    assert_eq!(gv.len(), 1);
    assert_eq!(gv[0].0, -1.0);

    let op = BasicFn::new(7, 4);
    assert!(matches!(op.kind, FnKind::Custom { tag: 7, arity: 4 }));
    assert!(op.info.is_none());
    let op = op.with_info("four-way");
    assert_eq!(op.info, Some("four-way"));

    let pair = NodeGradPair::new(3, F(0.5));
    assert_eq!(pair.node(), 3);
    assert_eq!(pair.grad().0, 0.5);
}

#[test]
fn division_and_subtraction_chain_gradients() {
    // y = (a - b) / b at (5, 2): dy/da = 1/b = 0.5, dy/db = -a/b^2 = -1.25
    let mut g: Graph<F> = Graph::new();
    let a = Node::start(&mut g, F(5.0));
    let b = Node::start(&mut g, F(2.0));
    let d = g.sub(node(a), node(b));
    let y = g.div(node(d), node(b));

    assert_eq!(value(&g, y), 1.5);
    let grads = Node::auto_grad(&g, y);
    assert_eq!(grads.len(), 2);
    assert_eq!(grads[0].node(), a);
    assert_eq!(grads[0].grad().0, 0.5);
    assert_eq!(grads[1].node(), b);
    // two contributions: sub path (-1)*(1/2) and div path (-3/4)
    assert_eq!(grads[1].grad().0, -1.0 * 0.5 + -3.0 / 4.0);
}

#[test]
fn chain_rule_through_three_links() {
    // y = exp(sin(ln(x))) at x = 2: dy/dx = exp(sin(ln x)) * cos(ln x) / x
    let x = 2.0_f64;
    let mut g: Graph<F> = Graph::new();
    let xn = Node::start(&mut g, F(x));
    let l = BasicFn::ln().to_gen_node_fn(&mut g, &vec![node(xn)]);
    let sn = BasicFn::sin().to_gen_node_fn(&mut g, &vec![node(l)]);
    let y = BasicFn::exp().to_gen_node_fn(&mut g, &vec![node(sn)]);

    assert_eq!(value(&g, y), x.ln().sin().exp());

    let grads = Node::auto_grad(&g, y);
    assert_eq!(grads.len(), 1);
    assert_eq!(grads[0].node(), xn);
    let expected = 1.0 / x * (x.ln().cos() * (x.ln().sin().exp() * 1.0));
    assert_eq!(grads[0].grad().0, expected);
}

#[test]
fn report_is_sorted_by_identity() {
    let mut g: Graph<F> = Graph::new();
    let a = Node::start(&mut g, F(1.0));
    let b = Node::start(&mut g, F(2.0));
    let c = Node::start(&mut g, F(3.0));
    let ab = g.mul(node(a), node(b));
    let y = g.add(node(ab), node(c));

    let grads = Node::auto_grad(&g, y);
    assert_eq!(grads.len(), 3);
    assert_eq!(grads[0].node(), a);
    assert_eq!(grads[1].node(), b);
    assert_eq!(grads[2].node(), c);
    assert_eq!(grads[0].grad().0, 2.0);
    assert_eq!(grads[1].grad().0, 1.0);
    assert_eq!(grads[2].grad().0, 1.0);
}
