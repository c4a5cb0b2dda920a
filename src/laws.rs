use vstd::prelude::*;
use crate::decoder::{decode_outcome, lemma_block_size_bound};
use crate::ident::IdentHeader;
use crate::mapping::Mode;

verus! {

/// After a reset, the first packet completes no samples and the second
/// completes a quarter of the two block sizes together.
pub proof fn lemma_output_length(modes: Seq<Mode>, ident: IdentHeader, p1: Seq<u8>, p2: Seq<u8>)
    requires
        ident.wf(),
    ensures
        ({
            let (r1, l1) = decode_outcome(None, modes, ident, p1);
            let (r2, l2) = decode_outcome(l1, modes, ident, p2);
            &&& r1 is Ok ==> r1->Ok_0.render_len == 0
            &&& r1 is Ok && r2 is Ok ==> r2->Ok_0.render_len == (r1->Ok_0.block_size + r2->Ok_0.block_size) / 4
        }),
{
    lemma_block_size_bound(ident.bs0_exp);
    lemma_block_size_bound(ident.bs1_exp);
    vstd::arithmetic::power2::lemma2_to64();
}

} // verus!
