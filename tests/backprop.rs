use micrograd::graph::{Graph, OpKind};

/// Forward values, gradients and power exponents kept beside a graph.
struct Tape {
    g: Graph,
    data: Vec<f64>,
    grad: Vec<f64>,
    exponent: Vec<f64>,
}

impl Tape {
    fn new() -> Tape {
        Tape { g: Graph::new(), data: vec![], grad: vec![], exponent: vec![] }
    }

    fn record(&mut self, id: usize, data: f64, exponent: f64) -> usize {
        assert_eq!(id, self.data.len());
        self.data.push(data);
        self.grad.push(0.0);
        self.exponent.push(exponent);
        id
    }

    fn leaf(&mut self, data: f64, label: &str) -> usize {
        let id = self.g.leaf(label.to_string());
        self.record(id, data, 0.0)
    }

    fn add(&mut self, a: usize, b: usize) -> usize {
        let v = self.data[a] + self.data[b];
        let id = self.g.add(a, b);
        self.record(id, v, 0.0)
    }

    fn mul(&mut self, a: usize, b: usize) -> usize {
        let v = self.data[a] * self.data[b];
        let id = self.g.mul(a, b);
        self.record(id, v, 0.0)
    }

    fn pow(&mut self, a: usize, k: f64) -> usize {
        let v = self.data[a].powf(k);
        let id = self.g.powop(a);
        self.record(id, v, k)
    }

    fn tanh(&mut self, a: usize) -> usize {
        let v = self.data[a].tanh();
        let id = self.g.tanh(a);
        self.record(id, v, 0.0)
    }

    fn exp(&mut self, a: usize) -> usize {
        let v = self.data[a].exp();
        let id = self.g.exp(a);
        self.record(id, v, 0.0)
    }

    fn sub(&mut self, a: usize, b: usize) -> usize {
        let m = self.leaf(-1.0, "");
        let nb = self.mul(b, m);
        self.add(a, nb)
    }

    fn div(&mut self, a: usize, b: usize) -> Option<usize> {
        if self.data[b] == 0.0 {
            return None;
        }
        let inv = self.pow(b, -1.0);
        Some(self.mul(a, inv))
    }

    fn backward(&mut self, root: usize) {
        self.grad[root] = 1.0;
        for id in self.g.backward_order(root) {
            let node = self.g.node(id);
            let out_grad = self.grad[id];
            let out_val = self.data[id];
            let ps = node.parents.clone();
            match node.op.expect("derived node") {
                OpKind::Add => {
                    self.grad[ps[0]] += out_grad;
                    self.grad[ps[1]] += out_grad;
                }
                OpKind::Multiply => {
                    let (a, b) = (self.data[ps[0]], self.data[ps[1]]);
                    self.grad[ps[0]] += b * out_grad;
                    self.grad[ps[1]] += a * out_grad;
                }
                OpKind::Power => {
                    let k = self.exponent[id];
                    self.grad[ps[0]] += k * self.data[ps[0]].powf(k - 1.0) * out_grad;
                }
                OpKind::Tanh => self.grad[ps[0]] += (1.0 - out_val.powf(2.0)) * out_grad,
                OpKind::Exponential => self.grad[ps[0]] += out_val * out_grad,
            }
        }
    }
}

fn close(a: f64, b: f64, tol: f64) -> bool {
    (a - b).abs() < tol
}

#[test]
fn chaining() {
    let mut t = Tape::new();
    let a = t.leaf(2.0, "a");
    let b = t.leaf(3.0, "b");
    let c = t.add(a, b);
    let d = t.add(c, a);
    t.backward(d);
    assert_eq!(t.data[d], 7.0);
    assert_eq!(t.grad[a], 2.0);
    assert_eq!(t.grad[b], 1.0);
    assert_eq!(t.grad[c], 1.0);
}

fn neuron_inputs(t: &mut Tape) -> (usize, usize, usize, usize, usize) {
    let x1 = t.leaf(2.0, "x1");
    let x2 = t.leaf(0.0, "x2");
    let w1 = t.leaf(-3.0, "w1");
    let w2 = t.leaf(1.0, "w2");
    let x1w1 = t.mul(x1, w1);
    t.g.label(x1w1, "x1w1".to_string());
    let x2w2 = t.mul(x2, w2);
    t.g.label(x2w2, "x2w2".to_string());
    let sum = t.add(x1w1, x2w2);
    t.g.label(sum, "x1w1 + x2w2".to_string());
    let b = t.leaf(6.8813735870195432, "b");
    let n = t.add(sum, b);
    t.g.label(n, "n".to_string());
    (x1, x2, w1, w2, n)
}

#[test]
fn simple_graph() {
    let mut t = Tape::new();
    let (x1, x2, w1, w2, n) = neuron_inputs(&mut t);
    let o = t.tanh(n);
    t.backward(o);
    assert!(close(t.data[o], 0.7071067811865476, 1e-6));
    assert!(close(t.grad[x1], -1.5, 1e-6));
    assert!(close(t.grad[w1], 1.0, 1e-6));
    assert!(close(t.grad[x2], 0.5, 1e-6));
    assert!(close(t.grad[w2], 0.0, 1e-6));
    assert_eq!(t.g.node(n).label, "n");
}

#[test]
fn simple_graph_2() {
    let mut t = Tape::new();
    let (x1, x2, w1, w2, n) = neuron_inputs(&mut t);
    let two = t.leaf(2.0, "mul");
    let twice = t.mul(two, n);
    let e = t.exp(twice);
    t.g.label(e, "exponent".to_string());
    let one_a = t.leaf(1.0, "");
    let top = t.sub(e, one_a);
    let one_b = t.leaf(1.0, "");
    let bottom = t.add(e, one_b);
    let i = t.div(top, bottom).expect("nonzero divisor");
    t.g.label(i, "output".to_string());
    t.backward(i);
    assert!(close(t.data[i], 0.7071067811865476, 1e-6));
    assert!(close(t.grad[x1], -1.5, 1e-6));
    assert!(close(t.grad[w1], 1.0, 1e-6));
    assert!(close(t.grad[x2], 0.5, 1e-6));
    assert!(close(t.grad[w2], 0.0, 1e-6));
}

#[test]
fn div() {
    let mut t = Tape::new();
    let a = t.leaf(2.0, "a");
    let b = t.leaf(3.0, "b");
    let c = t.div(b, a).expect("nonzero divisor");
    t.backward(c);
    assert_eq!(t.data[c], 1.5);
    assert!(close(t.grad[b], 0.5, 1e-12));
    assert!(close(t.grad[a], -0.75, 1e-12));
}

#[test]
fn division_by_zero_is_refused() {
    let mut t = Tape::new();
    let a = t.leaf(1.0, "a");
    let z = t.leaf(0.0, "z");
    let before = t.g.len();
    assert_eq!(t.div(a, z), None);
    assert_eq!(t.g.len(), before);
}

#[test]
fn pow() {
    let mut t = Tape::new();
    let a = t.leaf(2.0, "a");
    let c = t.pow(a, 2.0);
    t.backward(c);
    assert_eq!(t.data[c], 4.0);
    assert_eq!(t.grad[a], 4.0);
}

#[test]
fn sub() {
    let mut t = Tape::new();
    let a = t.leaf(2.0, "a");
    let b = t.leaf(3.0, "b");
    let c = t.sub(a, b);
    t.backward(c);
    assert_eq!(t.data[c], -1.0);
    assert_eq!(t.grad[a], 1.0);
    assert_eq!(t.grad[b], -1.0);
}

#[test]
fn fail() {
    let mut t = Tape::new();
    let a = t.leaf(3.0, "a");
    let b = t.add(a, a);
    t.backward(b);
    assert_eq!(t.data[b], 6.0);
    assert_eq!(t.grad[a], 2.0);
}

#[test]
fn it_works() {
    let mut t = Tape::new();
    let a = t.leaf(2.0, "a");
    let b = t.leaf(-3.0, "b");
    let c = t.leaf(10.0, "c");
    let ab = t.mul(a, b);
    let d = t.add(ab, c);
    t.backward(d);
    assert_eq!(t.data[d], 4.0);
    assert_eq!(t.grad[a], -3.0);
    assert_eq!(t.grad[b], 2.0);
    assert_eq!(t.grad[c], 1.0);
}

#[test]
fn scalar() {
    let mut t = Tape::new();
    let a = t.leaf(2.0, "a");
    let b = t.leaf(-3.0, "");
    let d = t.add(a, b);
    t.backward(d);
    assert_eq!(t.data[d], -1.0);
    assert_eq!(t.grad[a], 1.0);
}

#[test]
fn tanh_chain_rule() {
    for v in [-2.0f64, -0.5, 0.0, 0.3, 1.7] {
        let mut t = Tape::new();
        let x = t.leaf(v, "x");
        let y = t.tanh(x);
        t.backward(y);
        assert!(close(t.grad[x], 1.0 - v.tanh().powi(2), 1e-9));
    }
}

#[test]
fn product_rule() {
    let mut t = Tape::new();
    let a = t.leaf(2.0, "a");
    let b = t.leaf(3.0, "b");
    let c = t.mul(a, b);
    t.backward(c);
    assert_eq!(t.grad[a], 3.0);
    assert_eq!(t.grad[b], 2.0);
    assert_eq!(t.grad[c], 1.0);
}

#[test]
fn sum_rule() {
    let mut t = Tape::new();
    let a = t.leaf(-4.5, "a");
    let b = t.leaf(8.0, "b");
    let c = t.add(a, b);
    t.backward(c);
    assert_eq!(t.grad[a], 1.0);
    assert_eq!(t.grad[b], 1.0);
}

#[test]
fn exp_rule() {
    let mut t = Tape::new();
    let a = t.leaf(1.0, "a");
    let e = t.exp(a);
    t.backward(e);
    assert!(close(t.data[e], std::f64::consts::E, 1e-12));
    assert!(close(t.grad[a], std::f64::consts::E, 1e-12));
}
