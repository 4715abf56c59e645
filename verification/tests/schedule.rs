use lbm::solver::Iteration;
use lbm::solver::RunSchedule;

fn collect(n_it: usize, n_out: usize) -> Vec<Iteration> {
    let mut s = RunSchedule::new(n_it, n_out);
    let mut out = Vec::new();
    while let Some(it) = s.next() {
        out.push(it);
    }
    assert_eq!(s.next(), None);
    out
}

#[test]
fn schedule_runs_every_iteration_once() {
    let its = collect(5, 2);
    assert_eq!(its.len(), 5);
    for (k, it) in its.iter().enumerate() {
        assert_eq!(it.iter, k);
    }
}

#[test]
fn schedule_writes_output_every_n_out_iterations() {
    let its = collect(5, 2);
    let writes: Vec<bool> = its.iter().map(|it| it.write_output).collect();
    assert_eq!(writes, vec![true, false, true, false, true]);
    // ceil(10001 / 500) outputs in the configured run
    let count = collect(10001, 500).iter().filter(|it| it.write_output).count();
    assert_eq!(count, 21);
}

#[test]
fn schedule_without_output() {
    let its = collect(3, 0);
    assert!(its.iter().all(|it| !it.write_output));
    assert_eq!(its.len(), 3);
}

#[test]
fn schedule_single_iteration() {
    let its = collect(1, 7);
    assert_eq!(its, vec![Iteration { iter: 0, write_output: true }]);
}
