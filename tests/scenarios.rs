use why_rs::pc::PC;

/// A small deterministic generator of standard normal samples.
struct Normals {
    state: u64,
}

impl Normals {
    fn new(seed: u64) -> Self {
        Normals { state: seed }
    }

    fn uniform(&mut self) -> f64 {
        self.state = self.state.wrapping_mul(6364136223846793005).wrapping_add(1442695040888963407);
        ((self.state >> 11) as f64 + 0.5) / (1u64 << 53) as f64
    }

    fn normal(&mut self) -> f64 {
        let u1 = self.uniform();
        let u2 = self.uniform();
        (-2.0 * u1.ln()).sqrt() * (2.0 * std::f64::consts::PI * u2).cos()
    }
}

fn pearson(a: &[f64], b: &[f64]) -> f64 {
    let n = a.len() as f64;
    let ma = a.iter().sum::<f64>() / n;
    let mb = b.iter().sum::<f64>() / n;
    let mut num = 0.0;
    let mut da = 0.0;
    let mut db = 0.0;
    for i in 0..a.len() {
        num += (a[i] - ma) * (b[i] - mb);
        da += (a[i] - ma) * (a[i] - ma);
        db += (b[i] - mb) * (b[i] - mb);
    }
    if da == 0.0 || db == 0.0 { 0.0 } else { num / (da.sqrt() * db.sqrt()) }
}

fn partial(corr: &Vec<Vec<f64>>, x: usize, y: usize, z: &[usize]) -> f64 {
    if z.is_empty() {
        return corr[x][y];
    }
    let k = z[0];
    let rest = &z[1..];
    let rxy = partial(corr, x, y, rest);
    let rxk = partial(corr, x, k, rest);
    let ryk = partial(corr, y, k, rest);
    let den = ((1.0 - rxk * rxk) * (1.0 - ryk * ryk)).sqrt();
    if den == 0.0 { 0.0 } else { (rxy - rxk * ryk) / den }
}

/// A Fisher-Z oracle at alpha = 0.05 over the given columns.
fn fisher_oracle(columns: Vec<Vec<f64>>) -> impl Fn(usize, usize, &Vec<usize>) -> bool {
    let n = columns[0].len();
    let corr: Vec<Vec<f64>> = (0..columns.len())
        .map(|i| (0..columns.len()).map(|j| pearson(&columns[i], &columns[j])).collect())
        .collect();
    move |x: usize, y: usize, z: &Vec<usize>| {
        let mut zs = z.clone();
        zs.sort();
        let r = partial(&corr, x, y, &zs);
        if r.abs() >= 1.0 {
            return false;
        }
        let dof = n as f64 - zs.len() as f64 - 3.0;
        if dof <= 0.0 {
            return false;
        }
        let stat = (0.5 * ((1.0 + r) / (1.0 - r)).ln()).abs() * dof.sqrt();
        stat < 1.960
    }
}

fn names(list: &[&str]) -> Vec<String> {
    list.iter().map(|s| s.to_string()).collect()
}

fn has_edge(pc: &PC, a: &str, b: &str) -> bool {
    pc.edges().iter().any(|(u, v)| u == a && v == b)
}

#[test]
fn independent_data_gives_empty_graph() {
    let mut g = Normals::new(7);
    let x: Vec<f64> = (0..1000).map(|_| g.normal()).collect();
    let y: Vec<f64> = (0..1000).map(|_| g.normal()).collect();
    let z: Vec<f64> = (0..1000).map(|_| g.normal()).collect();
    let mut pc = PC::new(names(&["X", "Y", "Z"]));
    pc.run(&fisher_oracle(vec![x, y, z]));
    assert!(pc.edges().is_empty());
}

#[test]
fn chain_data_separates_ends_by_middle() {
    let mut g = Normals::new(11);
    let x: Vec<f64> = (0..1000).map(|_| g.normal()).collect();
    let y: Vec<f64> = x.iter().map(|v| 0.8 * v + 0.6 * g.normal()).collect();
    let z: Vec<f64> = y.iter().map(|v| 0.8 * v + 0.6 * g.normal()).collect();
    let mut pc = PC::new(names(&["X", "Y", "Z"]));
    pc.learn_skeleton(&fisher_oracle(vec![x, y, z]));
    assert!(has_edge(&pc, "X", "Y") && has_edge(&pc, "Y", "Z"));
    assert!(!has_edge(&pc, "X", "Z") && !has_edge(&pc, "Z", "X"));
    let sep = pc.sepset(&"X".to_string(), &"Z".to_string()).unwrap();
    assert_eq!(sep, Some(names(&["Y"])));
}

#[test]
fn collider_data_orients_into_middle() {
    let mut g = Normals::new(23);
    let x: Vec<f64> = (0..1000).map(|_| g.normal()).collect();
    let z: Vec<f64> = (0..1000).map(|_| g.normal()).collect();
    let y: Vec<f64> = (0..1000).map(|i| x[i] + z[i] + 0.5 * g.normal()).collect();
    let mut pc = PC::new(names(&["X", "Y", "Z"]));
    pc.run(&fisher_oracle(vec![x, y, z]));
    assert!(has_edge(&pc, "X", "Y") && !has_edge(&pc, "Y", "X"));
    assert!(has_edge(&pc, "Z", "Y") && !has_edge(&pc, "Y", "Z"));
}

#[test]
fn rerun_on_same_data_is_identical() {
    let mut g = Normals::new(5);
    let x: Vec<f64> = (0..1000).map(|_| g.normal()).collect();
    let z: Vec<f64> = (0..1000).map(|_| g.normal()).collect();
    let y: Vec<f64> = (0..1000).map(|i| x[i] - z[i] + 0.5 * g.normal()).collect();
    let w: Vec<f64> = y.iter().map(|v| 0.7 * v + 0.7 * g.normal()).collect();
    let columns = vec![x, y, z, w];
    let mut first = PC::new(names(&["X", "Y", "Z", "W"]));
    first.run(&fisher_oracle(columns.clone()));
    let mut second = PC::new(names(&["X", "Y", "Z", "W"]));
    second.run(&fisher_oracle(columns));
    assert_eq!(first.edges(), second.edges());
    assert!(has_edge(&first, "Y", "W") && !has_edge(&first, "W", "Y"));
}
