//! Safe in-place redeployment of tweaked contract code onto a forked chain.
//!
//! A contract cloned from a live chain keeps its persistent storage when its
//! code is replaced, so a recompiled contract is only safe to install if it
//! reads storage exactly as the original did. This crate holds the storage
//! layout model, the compatibility checker that gates a redeploy, the code
//! generator that resolves immutable and library placeholders into runtime
//! bytecode, and a model of the executor step that installs the result.

mod bytes;
pub mod code;
pub mod compatibility;
pub mod executor;
pub mod layout;
mod metadata;

pub use metadata::ClonedProject;

use vstd::prelude::*;

use crate::bytes::bytes_eq;
use crate::code::{
    generated_code, generation_fails_because, generation_succeeds, generate_tweaked_code,
    BuildArtifact, ChainFacts, GenerationError, TweakedDeployment,
};
use crate::compatibility::{
    check_storage_compatibility, spec_findings, CompatibilityVerdict, Finding,
};

verus! {

/// One compiled contract of the project's build output, under the contract
/// name the compiler reported for it.
pub struct NamedArtifact {
    /// The contract's name, as identifier bytes.
    pub contract_name: Vec<u8>,
    /// Its build artifact.
    pub artifact: BuildArtifact,
}

/// Index of the first artifact named `name`, starting from `i`; -1 if none.
pub open spec fn artifact_index_from(artifacts: Seq<NamedArtifact>, name: Seq<u8>, i: int) -> int
    decreases artifacts.len() - i,
{
    if i < 0 || i >= artifacts.len() {
        -1
    } else if artifacts[i].contract_name@ == name {
        i
    } else {
        artifact_index_from(artifacts, name, i + 1)
    }
}

/// Index of the first artifact named `name`; -1 if none.
pub open spec fn artifact_index(artifacts: Seq<NamedArtifact>, name: Seq<u8>) -> int {
    artifact_index_from(artifacts, name, 0)
}

/// Why a whole tweak run failed. The pipeline is strictly sequential and
/// short-circuits on the first failing stage.
#[derive(Clone, PartialEq, Eq, Debug)]
pub enum TweakError {
    /// The target contract is not among the compiled artifacts.
    ContractNotFound,
    /// The recompiled storage layout cannot replace the original; carries
    /// the full ordered finding list.
    LayoutIncompatible(Vec<Finding>),
    /// The layouts are compatible but code generation failed.
    Generation(GenerationError),
}

/// First index of `artifacts` whose contract name matches, if any.
fn find_artifact(artifacts: &Vec<NamedArtifact>, name: &Vec<u8>) -> (r: Option<usize>)
    ensures
        match r {
            Some(i) => artifact_index(artifacts@, name@) == i as int && i < artifacts@.len(),
            None => artifact_index(artifacts@, name@) == -1,
        },
{
    let n = artifacts.len();
    let mut i: usize = 0;
    while i < n
        invariant
            n == artifacts@.len(),
            i <= n,
            artifact_index(artifacts@, name@) == artifact_index_from(artifacts@, name@, i as int),
        decreases n - i,
    {
        if bytes_eq(&artifacts[i].contract_name, name) {
            return Some(i);
        }
        i += 1;
    }
    None
}

/// Runs one tweak: selects the target contract's artifact from the build
/// output, gates it on storage compatibility against the original layout,
/// and generates the tweaked deployment from the supplied chain facts.
///
/// The first failing stage wins: a missing target contract, then the full
/// compatibility finding list in the merge-walk's position order, then the
/// generator's error; on success the deployment carries the original
/// address and the fully linked bytecode.
pub fn tweak(project: &ClonedProject, artifacts: &Vec<NamedArtifact>, facts: &ChainFacts) -> (r:
    Result<TweakedDeployment, TweakError>)
    requires
        project.original_layout.wf(),
        forall|i: int| 0 <= i < artifacts@.len() ==> (#[trigger] artifacts@[i]).artifact.layout.wf(),
    ensures
        ({
            let ai = artifact_index(artifacts@, project.target_contract@);
            match r {
                Err(TweakError::ContractNotFound) => ai == -1,
                Err(TweakError::LayoutIncompatible(fs)) => ai >= 0 && fs@.len() > 0 && fs@
                    == spec_findings(
                    project.original_layout.slots@,
                    artifacts@[ai].artifact.layout.slots@,
                ),
                Err(TweakError::Generation(e)) => ai >= 0 && spec_findings(
                    project.original_layout.slots@,
                    artifacts@[ai].artifact.layout.slots@,
                ).len() == 0 && generation_fails_because(artifacts@[ai].artifact, *facts, e),
                Ok(d) => ai >= 0 && spec_findings(
                    project.original_layout.slots@,
                    artifacts@[ai].artifact.layout.slots@,
                ).len() == 0 && generation_succeeds(artifacts@[ai].artifact, *facts) && d.address@
                    == project.address@ && d.code@ == generated_code(
                    artifacts@[ai].artifact,
                    *facts,
                ),
            }
        }),
{
    let ai = match find_artifact(artifacts, &project.target_contract) {
        Some(i) => i,
        None => {
            return Err(TweakError::ContractNotFound);
        },
    };
    let artifact = &artifacts[ai].artifact;
    match check_storage_compatibility(&project.original_layout, &artifact.layout) {
        CompatibilityVerdict::Compatible => {},
        CompatibilityVerdict::Incompatible(findings) => {
            return Err(TweakError::LayoutIncompatible(findings));
        },
    }
    match generate_tweaked_code(project, artifact, facts) {
        Ok(d) => Ok(d),
        Err(e) => Err(TweakError::Generation(e)),
    }
}

} // verus!
