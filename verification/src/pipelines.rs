use vstd::prelude::*;

verus! {

/// Entry point of the dimensionality-reduction demonstrations (PCA, diffusion
/// maps and random projections). The model fitting is done by `linfa` and runs
/// outside the verified library.
pub struct ReductionPipeline;

/// Entry point of the t-SNE embedding of the Iris dataset. The embedding is
/// computed by `linfa-tsne` and runs outside the verified library.
pub struct TsnePipeline;

} // verus!
