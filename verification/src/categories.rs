//! arXiv category codes for infrastructure and networking domains.
use vstd::prelude::*;

verus! {

/// Networking and Internet Architecture.
pub const CS_NI: &'static str = "cs.NI";

/// Systems and Control.
pub const CS_SY: &'static str = "cs.SY";

/// Distributed, Parallel, and Cluster Computing.
pub const CS_DC: &'static str = "cs.DC";

/// Cryptography and Security.
pub const CS_CR: &'static str = "cs.CR";

/// Software Engineering.
pub const CS_SE: &'static str = "cs.SE";

/// Operating Systems.
pub const CS_OS: &'static str = "cs.OS";

/// Artificial Intelligence.
pub const CS_AI: &'static str = "cs.AI";

/// Machine Learning.
pub const CS_LG: &'static str = "cs.LG";

} // verus!
