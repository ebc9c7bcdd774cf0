use babble::rounds::{chosen_libs, initial_cost};
use babble::{BeamExperiment, CostSet, Experiment, Experiments, ILPExperiment, LibSel};

fn sel_of_size(n: usize) -> LibSel {
    let mut s = LibSel::intro_op();
    for _ in 1..n {
        s.inc_cost();
    }
    s
}

#[test]
fn initial_cost_counts_the_root() {
    assert_eq!(initial_cost(&vec![]), 1);
    assert_eq!(initial_cost(&vec![3, 3]), 7);
    assert_eq!(initial_cost(&vec![1]), 2);
}

#[test]
fn chosen_libs_are_the_used_ids_in_range() {
    let best = LibSel::intro_op()
        .add_lib(5, &sel_of_size(2))
        .add_lib(1, &sel_of_size(3))
        .add_lib(9, &sel_of_size(1));
    assert_eq!(chosen_libs(&best, 10), vec![1, 5, 9]);
    assert_eq!(chosen_libs(&best, 6), vec![1, 5]);
    assert!(chosen_libs(&LibSel::intro_op(), 10).is_empty());
}

#[test]
fn best_is_the_cheapest_selection() {
    let mut value = CostSet::intro_op();
    value.inc_cost();
    let mut cs = CostSet::intro_op().add_lib(3, &value);
    cs.combine(CostSet::intro_op());
    let best = cs.best().unwrap();
    assert_eq!(best.full_cost(), 1);
    assert!(best.libs().is_empty());
    cs.prune(0);
    assert!(cs.best().is_none());
}

#[test]
fn gen_builds_every_configuration() {
    let e = Experiments::gen(&vec![20, 400], &vec![true, false], &vec![60]);
    assert_eq!(
        e.experiments(),
        &vec![
            Experiment::Beam(BeamExperiment { final_beams: 20, inter_beams: 20, extra_por: true }),
            Experiment::Beam(BeamExperiment { final_beams: 20, inter_beams: 20, extra_por: false }),
            Experiment::Beam(BeamExperiment { final_beams: 400, inter_beams: 400, extra_por: true }),
            Experiment::Beam(BeamExperiment { final_beams: 400, inter_beams: 400, extra_por: false }),
            Experiment::ILP(ILPExperiment { timeout: 60 }),
        ]
    );
}

#[test]
fn gen_defaults_the_reduction_flag() {
    let e = Experiments::gen(&vec![8], &vec![], &vec![]);
    assert_eq!(
        e.experiments(),
        &vec![Experiment::Beam(BeamExperiment { final_beams: 8, inter_beams: 8, extra_por: false })]
    );
}

#[test]
fn add_appends_experiments() {
    let mut a = Experiments::new();
    assert!(a.experiments().is_empty());
    a.add(Experiments::gen(&vec![], &vec![], &vec![5, 6]));
    a.add(Experiments::gen(&vec![3], &vec![true], &vec![]));
    assert_eq!(
        a.experiments(),
        &vec![
            Experiment::ILP(ILPExperiment { timeout: 5 }),
            Experiment::ILP(ILPExperiment { timeout: 6 }),
            Experiment::Beam(BeamExperiment { final_beams: 3, inter_beams: 3, extra_por: true }),
        ]
    );
}
