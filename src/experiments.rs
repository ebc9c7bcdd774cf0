//! Sets of experiment configurations: beam experiments for each beam size
//! and partial-order-reduction flag, and ILP experiments for each timeout.

use vstd::prelude::*;

verus! {

/// A beam experiment's configuration.
#[derive(Debug, Clone, Copy, PartialEq, Eq)]
pub struct BeamExperiment {
    /// The number of selections kept per e-class.
    pub final_beams: usize,
    /// The number of selections kept between two crossings.
    pub inter_beams: usize,
    /// Whether the extra partial-order reduction is used.
    pub extra_por: bool,
}

/// An ILP experiment's configuration.
#[derive(Debug, Clone, Copy, PartialEq, Eq)]
pub struct ILPExperiment {
    /// The time limit, in seconds.
    pub timeout: u64,
}

/// One experiment: beam search or ILP.
#[derive(Debug, Clone, Copy, PartialEq, Eq)]
pub enum Experiment {
    /// A beam experiment.
    Beam(BeamExperiment),
    /// An ILP experiment.
    ILP(ILPExperiment),
}

/// The beam experiment with both beam sizes `beam`.
pub open spec fn beam_of(beam: usize, extra_por: bool) -> Experiment {
    Experiment::Beam(BeamExperiment { final_beams: beam, inter_beams: beam, extra_por })
}

/// For each beam size in order, one beam experiment per flag of `pors`.
pub open spec fn beam_plans(beams: Seq<usize>, pors: Seq<bool>) -> Seq<Experiment>
    decreases beams.len(),
{
    if beams.len() == 0 {
        Seq::empty()
    } else {
        beam_plans(beams.drop_last(), pors) + pors.map_values(|p: bool| beam_of(beams.last(), p))
    }
}

/// One ILP experiment per timeout, in order.
pub open spec fn ilp_plans(timeouts: Seq<u64>) -> Seq<Experiment> {
    timeouts.map_values(|t: u64| Experiment::ILP(ILPExperiment { timeout: t }))
}

/// The experiments generated from the parameters: the beam experiments,
/// with the flag `false` alone where no flag is given, then the ILP ones.
pub open spec fn gen_view(beams: Seq<usize>, pors: Seq<bool>, timeouts: Seq<u64>) -> Seq<Experiment> {
    let flags = if pors.len() == 0 {
        seq![false]
    } else {
        pors
    };
    beam_plans(beams, flags) + ilp_plans(timeouts)
}

/// A list of experiments.
#[derive(Debug)]
pub struct Experiments {
    exps: Vec<Experiment>,
}

impl View for Experiments {
    type V = Seq<Experiment>;

    closed spec fn view(&self) -> Seq<Experiment> {
        self.exps@
    }
}

impl Experiments {
    /// No experiment.
    pub fn new() -> (r: Experiments)
        ensures
            r@ == Seq::<Experiment>::empty(),
    {
        Experiments { exps: Vec::new() }
    }

    /// Appends the experiments of `other`.
    pub fn add(&mut self, other: Experiments)
        ensures
            final(self)@ == old(self)@ + other@,
    {
        let mut other = other;
        self.exps.append(&mut other.exps);
    }

    /// The experiments, in order.
    pub fn experiments(&self) -> (r: &Vec<Experiment>)
        ensures
            r@ == self@,
    {
        &self.exps
    }

    /// One beam experiment for each beam size and each flag of
    /// `extra_pors` (the flag `false` alone where none is given), then one
    /// ILP experiment for each timeout.
    pub fn gen(beams: &Vec<usize>, extra_pors: &Vec<bool>, timeouts: &Vec<u64>) -> (r: Experiments)
        ensures
            r@ == gen_view(beams@, extra_pors@, timeouts@),
    {
        let mut flags: Vec<bool> = Vec::new();
        if extra_pors.len() == 0 {
            flags.push(false);
            assert(flags@ =~= seq![false]);
        } else {
            let mut k: usize = 0;
            while k < extra_pors.len()
                invariant
                    k <= extra_pors@.len(),
                    flags@ == extra_pors@.take(k as int),
                decreases extra_pors@.len() - k,
            {
                flags.push(extra_pors[k]);
                k += 1;
                assert(flags@ =~= extra_pors@.take(k as int));
            }
            assert(extra_pors@.take(k as int) =~= extra_pors@);
        }
        let ghost fl = flags@;
        let mut res: Vec<Experiment> = Vec::new();
        let mut i: usize = 0;
        assert(beams@.take(0) =~= Seq::<usize>::empty());
        while i < beams.len()
            invariant
                i <= beams@.len(),
                fl == flags@,
                res@ == beam_plans(beams@.take(i as int), fl),
            decreases beams@.len() - i,
        {
            let beam = beams[i];
            let ghost done = res@;
            let mut j: usize = 0;
            while j < flags.len()
                invariant
                    j <= fl.len(),
                    fl == flags@,
                    beam == beams@[i as int],
                    res@ == done + fl.take(j as int).map_values(|p: bool| beam_of(beam, p)),
                decreases fl.len() - j,
            {
                res.push(
                    Experiment::Beam(
                        BeamExperiment { final_beams: beam, inter_beams: beam, extra_por: flags[j] },
                    ),
                );
                j += 1;
                assert(res@ =~= done + fl.take(j as int).map_values(|p: bool| beam_of(beam, p)));
            }
            proof {
                assert(fl.take(j as int) =~= fl);
                assert(beams@.take(i + 1).drop_last() =~= beams@.take(i as int));
            }
            i += 1;
        }
        assert(beams@.take(i as int) =~= beams@);
        let ghost beam_part = res@;
        let mut t: usize = 0;
        while t < timeouts.len()
            invariant
                t <= timeouts@.len(),
                res@ == beam_part + ilp_plans(timeouts@.take(t as int)),
            decreases timeouts@.len() - t,
        {
            res.push(Experiment::ILP(ILPExperiment { timeout: timeouts[t] }));
            t += 1;
            assert(res@ =~= beam_part + ilp_plans(timeouts@.take(t as int)));
        }
        assert(timeouts@.take(t as int) =~= timeouts@);
        Experiments { exps: res }
    }
}

} // verus!
