//! The command-line configuration of the node agent, as plain values.
//! Addresses and keys are kept as the text given on the command line.

use vstd::prelude::*;

verus! {

/// Which prover backend produces single-operator proofs.
#[derive(Clone, Copy, Debug, PartialEq, Eq, Structural)]
pub enum SP1Prover {
    Cpu,
    Network,
}

/// Deploys the registry and dispute contracts.
#[derive(Clone, Debug)]
pub struct DeployArgs {
    pub v: u8,
    pub eth_node_address: String,
    pub deployer_key: String,
    pub owner_key: String,
    pub sp1_verifier_address: String,
    pub challenge_window: u64,
    pub response_window: u64,
}

/// Registers a model: its storage location, Merkle root and operator count.
#[derive(Clone, Debug)]
pub struct RegisterArgs {
    pub v: u8,
    pub eth_node_address: String,
    pub model_registry_address: String,
    pub user_key: String,
    pub model_path: String,
}

/// Requests an inference.
#[derive(Clone, Debug)]
pub struct RequestArgs {
    pub v: u8,
    pub eth_node_address: String,
    pub model_registry_address: String,
    pub model_path: String,
    pub user_key: String,
    pub model_id: u8,
}

/// Serves inference requests as a responder.
#[derive(Clone, Debug)]
pub struct SubmitArgs {
    pub v: u8,
    pub eth_node_address: String,
    pub model_registry_address: String,
    pub fault_proof_address: String,
    pub user_key: String,
    pub model_id: u8,
    pub model_path: String,
    /// Operator whose output is corrupted when `defect` is set.
    pub operator_index: Option<u8>,
    /// Submit a wrong result on purpose.
    pub defect: bool,
}

/// Watches responses and challenges wrong ones.
#[derive(Clone, Debug)]
pub struct VerifyArgs {
    pub v: u8,
    pub eth_node_address: String,
    pub model_registry_address: String,
    pub fault_proof_address: String,
    pub user_key: String,
    pub model_id: u8,
    pub model_path: String,
}

/// Proves the execution of one operator, or of all.
#[derive(Clone, Debug)]
pub struct ProveArgs {
    pub v: u8,
    pub model_path: String,
    pub input_data_path: String,
    pub operator_index: Option<usize>,
    pub sp1_prover: SP1Prover,
}

/// The subcommands.
#[derive(Clone, Debug)]
pub enum Cli {
    Deploy(DeployArgs),
    Register(RegisterArgs),
    Request(RequestArgs),
    Submit(SubmitArgs),
    Verify(VerifyArgs),
    Prove(ProveArgs),
}

/// The verbosity level a command was given.
pub open spec fn verbosity_spec(c: Cli) -> u8 {
    match c {
        Cli::Deploy(a) => a.v,
        Cli::Register(a) => a.v,
        Cli::Request(a) => a.v,
        Cli::Submit(a) => a.v,
        Cli::Verify(a) => a.v,
        Cli::Prove(a) => a.v,
    }
}

impl Cli {
    /// The verbosity level of whichever command this is.
    pub fn verbosity(&self) -> (r: u8)
        ensures
            r == verbosity_spec(*self),
    {
        match self {
            Cli::Deploy(args) => args.v,
            Cli::Register(args) => args.v,
            Cli::Request(args) => args.v,
            Cli::Submit(args) => args.v,
            Cli::Verify(args) => args.v,
            Cli::Prove(args) => args.v,
        }
    }
}

impl SubmitArgs {
    /// The operator to corrupt: none without `defect`; otherwise the given
    /// one, or else `random_index` (drawn by the caller below the operator count).
    pub fn defect_index(&self, random_index: usize) -> (r: Option<usize>)
        ensures
            !self.defect ==> r is None,
            self.defect && self.operator_index is Some ==> r == Some(self.operator_index->0 as usize),
            self.defect && self.operator_index is None ==> r == Some(random_index),
    {
        if !self.defect {
            None
        } else {
            match self.operator_index {
                Some(i) => Some(i as usize),
                None => Some(random_index),
            }
        }
    }
}

/// Which operators a proving run covers: the one asked for, or all of them.
pub fn operators_to_prove(operator_index: Option<usize>, num_operators: usize) -> (r: Vec<usize>)
    ensures
        operator_index is Some ==> r@ == seq![operator_index->0],
        operator_index is None ==> r@.len() == num_operators && forall|i: int| 0 <= i < num_operators ==> r@[i] == i,
{
    let mut r: Vec<usize> = Vec::new();
    match operator_index {
        Some(i) => {
            r.push(i);
            assert(r@ =~= seq![i]);
        },
        None => {
            let mut i: usize = 0;
            while i < num_operators
                invariant
                    i <= num_operators,
                    r@.len() == i,
                    forall|j: int| 0 <= j < i ==> r@[j] == j,
                decreases num_operators - i,
            {
                r.push(i);
                i = i + 1;
            }
        },
    }
    r
}

} // verus!
