//! `CPC.Commit`: per-step SIS hiding commitments `u_i = b * d_i`, a Merkle
//! tree over them, and the public projections `Delta_i = a * d_i` that the
//! verifier needs to challenge the prover.
use vstd::prelude::*;
use crate::merkle::{leaf_hash, merkle_root, MerkleTree};
use crate::params::PublicParams;
use crate::ring::{mul_polys, norm_sq, poly_bytes, sub_polys, Poly};
use crate::ring_spec::{poly_mul, poly_sub};

verus! {

/// Auxiliary information retained by the committer: the differences `d_i`,
/// the hiding commitments `u_i`, the public projections `Delta_i`, and the
/// Merkle tree (needed to generate authentication paths during `Prove`).
pub struct Aux {
    /// Step differences `d_i = v_i - v_{i-1}` for `i = 1..=L`.
    pub d_vec: Vec<Poly>,
    /// Hiding commitments `u_i = b * d_i` (Merkle leaves).
    pub u_vec: Vec<Poly>,
    /// Public projections `Delta_i = a * d_i` (verifier-side input).
    pub deltas: Vec<Poly>,
    /// The Merkle tree (for path generation during `Prove`).
    pub tree: MerkleTree,
}

impl Aux {
    /// The state that `commit` leaves under `pp`: `L >= 1` canonical
    /// differences, `u_i = b * d_i`, `Delta_i = a * d_i`, and a tree whose
    /// leaf `i` is the hash of the serialization of `u_i`.
    pub open spec fn wf(&self, pp: PublicParams) -> bool {
        let l = self.d_vec@.len();
        &&& l >= 1
        &&& self.u_vec@.len() == l
        &&& self.deltas@.len() == l
        &&& self.tree.wf()
        &&& self.tree.spec_leaf_count() == l
        &&& forall|i: int|
            #![trigger self.d_vec@[i]]
            #![trigger self.u_vec@[i]]
            #![trigger self.deltas@[i]]
            0 <= i < l ==> {
                &&& self.d_vec@[i].wf()
                &&& self.u_vec@[i].wf()
                &&& self.deltas@[i].wf()
                &&& self.u_vec@[i]@ == poly_mul(pp.b_elem@, self.d_vec@[i]@)
                &&& self.deltas@[i]@ == poly_mul(pp.a@, self.d_vec@[i]@)
                &&& self.tree.leaf_node(i) == leaf_hash(poly_bytes(self.u_vec@[i]))
            }
    }
}

/// `||d||_2 <= beta`, compared on squares.
pub open spec fn step_within(d: Seq<int>, beta: i64) -> bool {
    beta >= 0 && norm_sq(d) <= beta * beta
}

/// The inputs `commit` accepts: canonical public elements, a path
/// `v_0, ..., v_L` of canonical polynomials with `1 <= L <= 2^30`, and every
/// step difference `v_{i+1} - v_i` within `beta`.
pub open spec fn commit_admissible(pp: PublicParams, path: Seq<Poly>) -> bool {
    &&& pp.wf()
    &&& 2 <= path.len() <= 0x4000_0001
    &&& forall|i: int| 0 <= i < path.len() ==> (#[trigger] path[i]).wf()
    &&& forall|i: int|
        0 <= i < path.len() - 1 ==> step_within(poly_sub(path[i + 1]@, (#[trigger] path[i])@), pp.beta)
}

/// Whether `commit` accepts `path` under `pp` (see [`commit_admissible`]).
pub fn check_commit_input(pp: &PublicParams, path: &[Poly]) -> (r: bool)
    ensures
        r == commit_admissible(*pp, path@),
{
    if !pp.a.is_canonical() || !pp.b_elem.is_canonical() {
        return false;
    }
    if path.len() < 2 || path.len() > 0x4000_0001 {
        return false;
    }
    let mut i: usize = 0;
    while i < path.len()
        invariant
            i <= path@.len(),
            forall|t: int| 0 <= t < i ==> (#[trigger] path@[t]).wf(),
        decreases path@.len() - i,
    {
        if !path[i].is_canonical() {
            return false;
        }
        i = i + 1;
    }
    let mut i: usize = 0;
    while i + 1 < path.len()
        invariant
            i + 1 <= path@.len(),
            path@.len() <= 0x4000_0001,
            forall|t: int| 0 <= t < path@.len() ==> (#[trigger] path@[t]).wf(),
            forall|t: int|
                0 <= t < i ==> step_within(poly_sub(path@[t + 1]@, (#[trigger] path@[t])@), pp.beta),
        decreases path@.len() - i,
    {
        let d = sub_polys(&path[i + 1], &path[i]);
        let n = d.norm_l2_squared();
        let beta = pp.beta as i128;
        proof {
            assert(beta * beta <= 0x4000_0000_0000_0000_0000_0000_0000_0000) by (nonlinear_arith)
                requires
                    -0x8000_0000_0000_0000 <= beta <= 0x7fff_ffff_ffff_ffff,
            ;
        }
        if pp.beta < 0 || (n as i128) > beta * beta {
            return false;
        }
        i = i + 1;
    }
    true
}

/// Run `CPC.Commit` on the path `v_0, v_1, ..., v_L`.
///
/// Returns `(com, aux)` where `com` is the 32-byte Merkle root over the
/// serialized `u_i = b * d_i`, and `aux` holds `d_i = v_i - v_{i-1}`, `u_i`,
/// `Delta_i = a * d_i` and the tree.
pub fn commit(pp: &PublicParams, path: &[Poly]) -> (r: (crate::merkle::Hash, Aux))
    requires
        commit_admissible(*pp, path@),
    ensures
        r.1.wf(*pp),
        r.1.d_vec@.len() == path@.len() - 1,
        forall|i: int|
            0 <= i < path@.len() - 1 ==> (#[trigger] r.1.d_vec@[i])@ == poly_sub(path@[i + 1]@, path@[i]@),
        r.0@ == r.1.tree.root_view(),
        r.0@ == merkle_root(r.1.u_vec@.map_values(|u: Poly| poly_bytes(u))),
{
    let l = path.len() - 1;
    let mut d_vec: Vec<Poly> = Vec::with_capacity(l);
    let mut u_vec: Vec<Poly> = Vec::with_capacity(l);
    let mut deltas: Vec<Poly> = Vec::with_capacity(l);
    let mut leaves: Vec<Vec<u8>> = Vec::with_capacity(l);
    let mut i: usize = 0;
    while i < l
        invariant
            l == path@.len() - 1,
            commit_admissible(*pp, path@),
            i <= l,
            d_vec@.len() == i,
            u_vec@.len() == i,
            deltas@.len() == i,
            leaves@.len() == i,
            forall|t: int|
                #![trigger d_vec@[t]]
                #![trigger u_vec@[t]]
                #![trigger deltas@[t]]
                #![trigger leaves@[t]]
                0 <= t < i ==> {
                    &&& d_vec@[t].wf()
                    &&& u_vec@[t].wf()
                    &&& deltas@[t].wf()
                    &&& d_vec@[t]@ == poly_sub(path@[t + 1]@, path@[t]@)
                    &&& u_vec@[t]@ == poly_mul(pp.b_elem@, d_vec@[t]@)
                    &&& deltas@[t]@ == poly_mul(pp.a@, d_vec@[t]@)
                    &&& leaves@[t]@ == poly_bytes(u_vec@[t])
                },
        decreases l - i,
    {
        assert(path@[i as int].wf());
        assert(path@[i + 1].wf());
        let d = sub_polys(&path[i + 1], &path[i]);
        let u = mul_polys(&pp.b_elem, &d);
        let delta = mul_polys(&pp.a, &d);
        leaves.push(u.to_bytes());
        d_vec.push(d);
        u_vec.push(u);
        deltas.push(delta);
        i = i + 1;
    }
    let tree = MerkleTree::build(leaves.as_slice());
    let com = tree.root();
    let aux = Aux { d_vec, u_vec, deltas, tree };
    proof {
        assert forall|t: int| 0 <= t < l implies aux.tree.leaf_node(t) == leaf_hash(poly_bytes(#[trigger] aux.u_vec@[t])) by {
            assert(leaves@[t]@ == poly_bytes(u_vec@[t]));
        }
        let lv = leaves@.map_values(|b: Vec<u8>| b@);
        let uv = aux.u_vec@.map_values(|u: Poly| poly_bytes(u));
        assert(lv =~= uv) by {
            assert forall|t: int| 0 <= t < l implies #[trigger] lv[t] == uv[t] by {
                assert(leaves@[t]@ == poly_bytes(u_vec@[t]));
            }
        }
    }
    (com, aux)
}

} // verus!
