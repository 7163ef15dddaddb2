use vstd::prelude::*;
use crate::numbers::dec_seq;
use rand::Rng;

verus! {

/// Seeds lie in `[0, SEED_BOUND)`.
pub const SEED_BOUND: u64 = 0x1_0000_0000;

/// The bytes of `runs/`, the directory artifact files live under.
pub open spec fn runs_dir_prefix() -> Seq<u8> {
    seq![114u8, 117u8, 110u8, 115u8, 47u8]
}

/// The bytes of `.txt`.
pub open spec fn txt_suffix() -> Seq<u8> {
    seq![46u8, 116u8, 120u8, 116u8]
}

/// The artifact path for a seed: `runs/<seed>.txt`.
pub open spec fn seed_path(seed: u64) -> Seq<u8> {
    runs_dir_prefix() + dec_seq(seed as nat) + txt_suffix()
}

/// `p` collides with no path in `existing`.
pub open spec fn fresh_path(existing: Seq<Vec<u8>>, p: Seq<u8>) -> bool {
    forall|k: int| 0 <= k < existing.len() ==> #[trigger] existing[k]@ != p
}

/// Relies on rand's `Rng::gen_range` over `0..SEED_BOUND`: the sample
/// lies in that non-empty half-open range (so the call cannot panic).
#[verifier::external_body]
fn random_below_seed_bound() -> (s: u64)
    ensures
        s < SEED_BOUND,
{
    rand::thread_rng().gen_range(0..SEED_BOUND)
}

/// Build the artifact path `runs/<seed>.txt` for a seed.
pub fn artifact_path(seed: u64) -> (p: Vec<u8>)
    ensures
        p@ == seed_path(seed),
{
    let mut p: Vec<u8> = Vec::new();
    p.push(114);
    p.push(117);
    p.push(110);
    p.push(115);
    p.push(47);
    let mut digits = crate::numbers::dec_bytes(seed);
    p.append(&mut digits);
    p.push(46);
    p.push(116);
    p.push(120);
    p.push(116);
    proof {
        assert(p@ =~= seed_path(seed));
    }
    p
}

/// Do two byte strings hold the same bytes?
fn bytes_eq(a: &Vec<u8>, b: &Vec<u8>) -> (r: bool)
    ensures
        r <==> a@ == b@,
{
    if a.len() != b.len() {
        return false;
    }
    let mut i: usize = 0;
    while i < a.len()
        invariant
            0 <= i <= a@.len(),
            a@.len() == b@.len(),
            forall|j: int| 0 <= j < i ==> a@[j] == b@[j],
        decreases a@.len() - i,
    {
        if a[i] != b[i] {
            return false;
        }
        i = i + 1;
    }
    proof {
        assert(a@ =~= b@);
    }
    true
}

/// Does `p` name an artifact already present among `existing`?
pub fn path_taken(existing: &Vec<Vec<u8>>, p: &Vec<u8>) -> (taken: bool)
    ensures
        taken <==> !fresh_path(existing@, p@),
{
    let mut k: usize = 0;
    while k < existing.len()
        invariant
            0 <= k <= existing@.len(),
            forall|j: int| 0 <= j < k ==> #[trigger] existing@[j]@ != p@,
        decreases existing@.len() - k,
    {
        if bytes_eq(&existing[k], p) {
            return true;
        }
        k = k + 1;
    }
    false
}

/// Draw random seeds until one names an artifact path that collides with
/// nothing in `existing`, giving up after `tries` draws. A collision is
/// recovered locally by redrawing, never surfaced as an error. With no
/// artifacts at all, the very first draw is owed to succeed; otherwise
/// whether a fresh seed turns up within the budget depends on the draws
/// alone, so a caller simply tries again on `None`. At this range a
/// collision is exponentially unlikely, which makes prompt success a
/// liveness assumption, not a guarantee.
pub fn next_seed(existing: &Vec<Vec<u8>>, tries: usize) -> (r: Option<(u64, Vec<u8>)>)
    ensures
        r matches Some(sp) ==> sp.0 < SEED_BOUND && sp.1@ == seed_path(sp.0) && fresh_path(
            existing@,
            sp.1@,
        ),
        tries > 0 && existing@.len() == 0 ==> r.is_some(),
{
    let mut t: usize = tries;
    while t > 0
        invariant
            existing@.len() == 0 ==> t == tries,
        decreases t,
    {
        let s = random_below_seed_bound();
        let p = artifact_path(s);
        if !path_taken(existing, &p) {
            return Some((s, p));
        }
        t = t - 1;
    }
    None
}

} // verus!
