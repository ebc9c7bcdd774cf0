//! Beam-search cost analysis for library learning over e-graphs, and the
//! list language whose programs it compresses.

pub mod analysis;
pub mod binding;
pub mod cost_set;
pub mod experiments;
pub mod lib_sel;
pub mod list_op;
pub mod numeral;
pub mod rounds;

pub use analysis::PartialLibCost;
pub use binding::{AstNode, BindingExpr};
pub use cost_set::CostSet;
pub use experiments::{BeamExperiment, Experiment, Experiments, ILPExperiment};
pub use lib_sel::{LibSel, LibSelView};
pub use list_op::ListOp;
pub use rounds::RoundBest;
