use vstd::prelude::*;
use crate::numbers::dec_seq;
use crate::run::Run;

verus! {

/// The bytes of `pcs @`, the fixed middle of a report line.
pub open spec fn pcs_at() -> Seq<u8> {
    seq![112u8, 99u8, 115u8, 32u8, 64u8]
}

/// One final-report line for a surviving run: `<score>pcs @<path>`.
pub open spec fn report_line_spec(r: Run) -> Seq<u8> {
    dec_seq(r.score as nat) + pcs_at() + r.path@
}

/// Render one final-report line for a surviving run.
pub fn report_line(r: &Run) -> (l: Vec<u8>)
    ensures
        l@ == report_line_spec(*r),
{
    let mut l = crate::numbers::dec_bytes(r.score);
    l.push(112);
    l.push(99);
    l.push(115);
    l.push(32);
    l.push(64);
    proof {
        assert(l@ =~= dec_seq(r.score as nat) + pcs_at() + r.path@.take(0));
    }
    let mut i: usize = 0;
    while i < r.path.len()
        invariant
            0 <= i <= r.path@.len(),
            l@ == dec_seq(r.score as nat) + pcs_at() + r.path@.take(i as int),
        decreases r.path@.len() - i,
    {
        let b = r.path[i];
        proof {
            assert(dec_seq(r.score as nat) + pcs_at() + r.path@.take(i as int + 1) =~= (dec_seq(
                r.score as nat,
            ) + pcs_at() + r.path@.take(i as int)).push(r.path@[i as int]));
        }
        l.push(b);
        i = i + 1;
    }
    proof {
        assert(r.path@.take(r.path@.len() as int) =~= r.path@);
    }
    l
}

} // verus!
