//! Level-by-level construction of a binary Merkle tree.
//!
//! The builder consumes an ordered, non-empty sequence of
//! [`FieldElement`] leaves and a two-input hash oracle. Each level is
//! reduced pairwise, left to right; when a level has odd length its last
//! element is carried to the next level unchanged. For every leaf the
//! builder records the sibling at each level where the leaf's node was
//! paired (leaf to root order) and an index whose bits give the node's
//! side at each such level, the leaf's own level least significant.

use vstd::prelude::*;
use vstd::arithmetic::power2::{
    pow2, lemma_pow2_unfold, lemma_pow2_strictly_increases, lemma2_to64, lemma2_to64_rest,
};
use vstd::arithmetic::mul::lemma_mul_inequality;
use vstd::bits::lemma_u64_shl_is_mul;

use crate::hashing::FieldElement;
use crate::Error;

verus! {

/// The level built above `level` when the pairwise hashes came out as
/// `hs`: one hash per adjacent pair, then the carried last element when
/// the length is odd.
pub open spec fn next_level_spec(level: Seq<FieldElement>, hs: Seq<FieldElement>) -> Seq<
    FieldElement,
> {
    Seq::new((level.len() + 1) / 2, |j: int| if 2 * j + 1 < level.len() {
        hs[j]
    } else {
        level[2 * j]
    })
}

/// The node in slot `slot` of a level of length `len` is paired (not the
/// odd carried last element).
pub open spec fn paired(slot: int, len: int) -> bool {
    if slot % 2 == 0 {
        slot + 1 < len
    } else {
        true
    }
}

/// The slot of the pair partner.
pub open spec fn sibling(slot: int) -> int {
    if slot % 2 == 0 {
        slot + 1
    } else {
        slot - 1
    }
}

/// `hs` is a possible answer of the oracle `f` for the adjacent pairs of
/// `level`: one entry per pair, each a value `f` may return on that pair,
/// left argument first.
pub open spec fn level_hashes_ok<F: Fn(FieldElement, FieldElement) -> Result<
    FieldElement,
    String,
>>(f: F, level: Seq<FieldElement>, hs: Seq<FieldElement>) -> bool {
    &&& hs.len() == level.len() / 2
    &&& forall|q: int|
        0 <= q < hs.len() ==> call_ensures(f, (level[2 * q], level[2 * q + 1]), Ok(#[trigger] hs[q]))
}

/// The level reached from `level` after applying the per-level hash
/// answers of `ts` in order.
pub open spec fn run_levels(level: Seq<FieldElement>, ts: Seq<Seq<FieldElement>>) -> Seq<
    FieldElement,
>
    decreases ts.len(),
{
    if ts.len() == 0 {
        level
    } else {
        run_levels(next_level_spec(level, ts[0]), ts.skip(1))
    }
}

/// `ts` is a transcript the oracle `f` may produce starting from `level`:
/// every step reduces a level of more than one element, with hashes the
/// oracle may return.
pub open spec fn transcript_ok<F: Fn(FieldElement, FieldElement) -> Result<
    FieldElement,
    String,
>>(f: F, level: Seq<FieldElement>, ts: Seq<Seq<FieldElement>>) -> bool
    decreases ts.len(),
{
    if ts.len() == 0 {
        true
    } else {
        &&& level.len() > 1
        &&& level_hashes_ok(f, level, ts[0])
        &&& transcript_ok(f, next_level_spec(level, ts[0]), ts.skip(1))
    }
}

/// The sibling path of the leaf that starts in slot `slot`: at each level
/// where its node is paired, the pair partner, leaf to root order.
pub open spec fn leaf_path(
    level: Seq<FieldElement>,
    ts: Seq<Seq<FieldElement>>,
    slot: int,
) -> Seq<FieldElement>
    decreases ts.len(),
{
    if ts.len() == 0 {
        Seq::empty()
    } else {
        let rest = leaf_path(next_level_spec(level, ts[0]), ts.skip(1), slot / 2);
        if paired(slot, level.len() as int) {
            seq![level[sibling(slot)]] + rest
        } else {
            rest
        }
    }
}

/// The positional index of the leaf that starts in slot `slot`: one bit
/// per level where its node was paired, 0 for left and 1 for right, the
/// bit of the leaf's own level least significant. A carried level
/// contributes no bit.
pub open spec fn leaf_index(
    level: Seq<FieldElement>,
    ts: Seq<Seq<FieldElement>>,
    slot: int,
) -> nat
    decreases ts.len(),
{
    if ts.len() == 0 {
        0
    } else {
        let rest = leaf_index(next_level_spec(level, ts[0]), ts.skip(1), slot / 2);
        if paired(slot, level.len() as int) {
            (slot % 2) as nat + 2 * rest
        } else {
            rest
        }
    }
}

/// Value of a bit vector read most-significant bit first; an entry other
/// than 1 counts as 0.
pub open spec fn be_bits_value(s: Seq<u8>) -> nat
    decreases s.len(),
{
    if s.len() == 0 {
        0
    } else {
        be_bits_value(s.drop_last()) * 2 + (if s.last() == 1 {
            1nat
        } else {
            0nat
        })
    }
}

/// The outputs of one build: the surviving root, and per leaf (by
/// original position) the sibling path and the positional index, all
/// explained by the transcript `ts` of per-level oracle answers.
pub open spec fn build_result_ok<F: Fn(FieldElement, FieldElement) -> Result<
    FieldElement,
    String,
>>(
    f: F,
    leaves: Seq<FieldElement>,
    ts: Seq<Seq<FieldElement>>,
    root: FieldElement,
    paths: Vec<Vec<FieldElement>>,
    indices: Vec<u64>,
) -> bool {
    &&& transcript_ok(f, leaves, ts)
    &&& run_levels(leaves, ts).len() == 1
    &&& root == run_levels(leaves, ts)[0]
    &&& paths@.len() == leaves.len()
    &&& indices@.len() == leaves.len()
    &&& forall|j: int| 0 <= j < leaves.len() ==> #[trigger] paths@[j]@ == leaf_path(leaves, ts, j)
    &&& forall|j: int|
        0 <= j < leaves.len() ==> (#[trigger] indices@[j]) as nat == leaf_index(leaves, ts, j)
}

/// Everything `create_tree_with_pedersen` promises of its result `r`:
/// `EmptyInput` exactly on an empty leaf sequence, `HashOracleError`
/// only with a cause the oracle may actually return, and on success a
/// transcript of oracle answers that explains root, paths and indices.
pub open spec fn build_spec<F: Fn(FieldElement, FieldElement) -> Result<FieldElement, String>>(
    f: F,
    leaves: Seq<FieldElement>,
    r: Result<(FieldElement, Vec<Vec<FieldElement>>, Vec<u64>), Error>,
) -> bool {
    &&& (leaves.len() == 0 <==> r matches Err(Error::EmptyInput))
    &&& match r {
        Ok(out) => exists|ts: Seq<Seq<FieldElement>>|
            #[trigger] build_result_ok(f, leaves, ts, out.0, out.1, out.2),
        Err(e) => match e {
            Error::EmptyInput => leaves.len() == 0,
            Error::HashOracleError(m) => leaves.len() > 0 && exists|
                a: FieldElement,
                b: FieldElement,
            |
                #[trigger] call_ensures(f, (a, b), Err(m)),
            Error::InvalidLiteral(_) => false,
        },
    }
}

/// One step of a non-empty transcript, spelled out: the bottom level has
/// more than one element, its pairs hash to `ts[0]`, and the rest of the
/// transcript continues from the level built above it.
pub proof fn lemma_transcript_unfold<F: Fn(FieldElement, FieldElement) -> Result<
    FieldElement,
    String,
>>(f: F, level: Seq<FieldElement>, ts: Seq<Seq<FieldElement>>)
    requires
        ts.len() > 0,
        transcript_ok(f, level, ts),
    ensures
        level.len() > 1,
        level_hashes_ok(f, level, ts[0]),
        transcript_ok(f, next_level_spec(level, ts[0]), ts.skip(1)),
{
}

/// A chain of levels, each built from the one below with the hashes of
/// `ts`, is a valid transcript, and running `ts` lands on the last level.
proof fn lemma_chain<F: Fn(FieldElement, FieldElement) -> Result<FieldElement, String>>(
    f: F,
    lvs: Seq<Seq<FieldElement>>,
    ts: Seq<Seq<FieldElement>>,
)
    requires
        lvs.len() == ts.len() + 1,
        forall|k: int| 0 <= k < ts.len() ==> #[trigger] lvs[k + 1] == next_level_spec(lvs[k], ts[k]),
        forall|k: int| 0 <= k < ts.len() ==> level_hashes_ok(f, lvs[k], #[trigger] ts[k]),
        forall|k: int| 0 <= k < ts.len() ==> #[trigger] lvs[k].len() > 1,
    ensures
        transcript_ok(f, lvs[0], ts),
        run_levels(lvs[0], ts) == lvs[ts.len() as int],
    decreases ts.len(),
{
    if ts.len() > 0 {
        let lvs2 = lvs.skip(1);
        let ts2 = ts.skip(1);
        assert forall|k: int| 0 <= k < ts2.len() implies #[trigger] lvs2[k + 1] == next_level_spec(
            lvs2[k],
            ts2[k],
        ) by {
            let kk = k + 1;
            assert(lvs[kk + 1] == next_level_spec(lvs[kk], ts[kk]));
        }
        assert forall|k: int| 0 <= k < ts2.len() implies level_hashes_ok(
            f,
            lvs2[k],
            #[trigger] ts2[k],
        ) by {
            let kk = k + 1;
            assert(level_hashes_ok(f, lvs[kk], ts[kk]));
        }
        assert forall|k: int| 0 <= k < ts2.len() implies #[trigger] lvs2[k].len() > 1 by {
            let kk = k + 1;
            assert(lvs[kk].len() > 1);
        }
        lemma_chain(f, lvs2, ts2);
        assert(lvs2[0] == lvs[1]);
        assert(lvs[1] == next_level_spec(lvs[0], ts[0]));
        assert(lvs2[ts2.len() as int] == lvs[ts.len() as int]);
    }
}

/// Copies a vector of field elements.
fn clone_elems(v: &Vec<FieldElement>) -> (r: Vec<FieldElement>)
    ensures
        r@ == v@,
{
    let n = v.len();
    let mut r: Vec<FieldElement> = Vec::new();
    let mut i: usize = 0;
    while i < n
        invariant
            0 <= i <= n,
            n == v@.len(),
            r@ == v@.take(i as int),
        decreases n - i,
    {
        proof {
            assert(v@.take(i as int + 1) =~= v@.take(i as int).push(v@[i as int]));
        }
        r.push(v[i].clone());
        i += 1;
    }
    proof {
        assert(v@.take(n as int) =~= v@);
    }
    r
}

/// Builds the Merkle tree over `inputs` with the two-input hash `oracle`
/// (in this system, the Pedersen hash as realized by an external prover).
///
/// Fails with `EmptyInput` exactly when `inputs` is empty, and with
/// `HashOracleError` carrying the oracle's cause when some oracle call
/// fails; an oracle that cannot fail makes success certain. On success
/// there is a transcript of per-level oracle answers that explains the
/// root, every sibling path and every index, as [`build_result_ok`]
/// states.
#[verifier::loop_isolation(false)]
#[verifier::rlimit(60)]
pub fn create_tree_with_pedersen<F: Fn(FieldElement, FieldElement) -> Result<
    FieldElement,
    String,
>>(inputs: &Vec<FieldElement>, oracle: F) -> (r: Result<
    (FieldElement, Vec<Vec<FieldElement>>, Vec<u64>),
    Error,
>)
    requires
        forall|a: FieldElement, b: FieldElement| #[trigger] call_requires(oracle, (a, b)),
    ensures
        build_spec(oracle, inputs@, r),
        inputs@.len() > 0 && (forall|a: FieldElement, b: FieldElement, m: String|
            !(#[trigger] call_ensures(oracle, (a, b), Err(m)))) ==> r is Ok,
{
    let n = inputs.len();
    if n == 0 {
        let out: Result<(FieldElement, Vec<Vec<FieldElement>>, Vec<u64>), Error> = Err(
            Error::EmptyInput,
        );
        proof {
            assert(build_spec(oracle, inputs@, out));
        }
        return out;
    }
    let mut levels: Vec<Vec<FieldElement>> = Vec::new();
    levels.push(clone_elems(inputs));
    let ghost mut ts: Seq<Seq<FieldElement>> = Seq::empty();
    proof {
        lemma2_to64();
        assert(pow2(0) == 1);
        assert(levels@[0]@.len() == n as nat);
        assert((levels@[0]@.len() - 1) * pow2(0) == n - 1);
    }
    while levels[levels.len() - 1].len() > 1
        invariant
            levels@.len() == ts.len() + 1,
            levels@[0]@ == inputs@,
            forall|k: int|
                0 <= k < ts.len() ==> #[trigger] levels@[k + 1]@ == next_level_spec(
                    levels@[k]@,
                    ts[k],
                ),
            forall|k: int| 0 <= k < ts.len() ==> level_hashes_ok(oracle, levels@[k]@, #[trigger] ts[k]),
            forall|k: int| 0 <= k < ts.len() ==> #[trigger] levels@[k]@.len() > 1,
            forall|k: int| 0 <= k <= ts.len() ==> #[trigger] levels@[k]@.len() >= 1,
            (levels@[ts.len() as int]@.len() - 1) * pow2(ts.len()) < n as nat,
            pow2(ts.len()) < 2 * n as nat,
        decreases levels@[levels@.len() - 1]@.len(),
    {
        let li = levels.len() - 1;
        let cur_len = levels[li].len();
        let m = cur_len / 2;
        let mut hs: Vec<FieldElement> = Vec::new();
        let mut q: usize = 0;
        while q < m
            invariant
                0 <= q <= m,
                hs@.len() == q,
                forall|t: int|
                    0 <= t < q ==> call_ensures(
                        oracle,
                        (levels@[li as int]@[2 * t], levels@[li as int]@[2 * t + 1]),
                        Ok(#[trigger] hs@[t]),
                    ),
            decreases m - q,
        {
            let row = &levels[li];
            let a = row[2 * q].clone();
            let b = row[2 * q + 1].clone();
            let ghost ag = a;
            let ghost bg = b;
            match oracle(a, b) {
                Ok(h) => {
                    hs.push(h);
                },
                Err(e) => {
                    let out: Result<(FieldElement, Vec<Vec<FieldElement>>, Vec<u64>), Error> = Err(
                        Error::HashOracleError(e),
                    );
                    proof {
                        assert(call_ensures(oracle, (ag, bg), Err::<FieldElement, String>(out->Err_0->HashOracleError_0)));
                        assert(build_spec(oracle, inputs@, out));
                    }
                    return out;
                },
            }
            q += 1;
        }
        let ghost hsv: Seq<FieldElement> = hs@;
        let mut next: Vec<FieldElement> = hs;
        if cur_len % 2 == 1 {
            let row = &levels[li];
            let c = row[cur_len - 1].clone();
            next.push(c);
        }
        proof {
            assert(next@ =~= next_level_spec(levels@[li as int]@, hsv));
        }
        let ghost old_len = cur_len as nat;
        let ghost new_len = next@.len();
        levels.push(next);
        proof {
            ts = ts.push(hsv);
            let k = (ts.len() - 1) as nat;
            lemma_pow2_unfold(k + 1);
            assert((new_len - 1) * 2 <= old_len - 1);
            assert((new_len - 1) * pow2(k + 1) < n as nat) by (nonlinear_arith)
                requires
                    (new_len - 1) * 2 <= old_len - 1,
                    (old_len - 1) * pow2(k) < n as nat,
                    pow2(k + 1) == 2 * pow2(k),
                    pow2(k) >= 0,
                    new_len >= 1,
            ;
            lemma_mul_inequality(1, old_len as int - 1, pow2(k) as int);
            assert(pow2(k + 1) < 2 * n as nat);
        }
    }
    let li = levels.len() - 1;
    let row = &levels[li];
    let root = row[0].clone();
    proof {
        let lvs = Seq::new(levels@.len() as nat, |k: int| levels@[k]@);
        assert forall|k: int| 0 <= k < ts.len() implies #[trigger] lvs[k + 1] == next_level_spec(
            lvs[k],
            ts[k],
        ) by {
            assert(levels@[k + 1]@ == next_level_spec(levels@[k]@, ts[k]));
        }
        lemma_chain(oracle, lvs, ts);
        assert(run_levels(inputs@, ts) == levels@[ts.len() as int]@);
    }
    let kmax = levels.len() - 1;
    let mut paths: Vec<Vec<FieldElement>> = Vec::new();
    let mut indices: Vec<u64> = Vec::new();
    proof {
        lemma2_to64();
        lemma2_to64_rest();
        assert(n as nat <= 0xffff_ffff_ffff_ffff);
        if ts.len() >= 65 {
            lemma_pow2_unfold(65);
            if ts.len() > 65 {
                lemma_pow2_strictly_increases(65, ts.len());
            }
            assert(pow2(65) <= pow2(ts.len()));
            assert(false);
        }
        assert(ts.len() <= 64);
    }
    let mut j: usize = 0;
    while j < n
        invariant
            0 <= j <= n,
            paths@.len() == j,
            indices@.len() == j,
            forall|t: int| 0 <= t < j ==> #[trigger] paths@[t]@ == leaf_path(inputs@, ts, t),
            forall|t: int|
                0 <= t < j ==> (#[trigger] indices@[t]) as nat == leaf_index(inputs@, ts, t),
        decreases n - j,
    {
        let mut pathj: Vec<FieldElement> = Vec::new();
        let mut idx: u64 = 0;
        let mut nbits: u64 = 0;
        let mut s: usize = j;
        let mut k: usize = 0;
        proof {
            assert(ts.skip(0) =~= ts);
            assert(Seq::<FieldElement>::empty() + leaf_path(inputs@, ts, j as int) =~= leaf_path(
                inputs@,
                ts,
                j as int,
            ));
            assert(pow2(0) == 1);
        }
        while k < kmax
            invariant
                0 <= k <= kmax,
                s < levels@[k as int]@.len(),
                nbits <= k,
                (idx as nat) < pow2(nbits as nat),
                leaf_path(inputs@, ts, j as int) == pathj@ + leaf_path(
                    levels@[k as int]@,
                    ts.skip(k as int),
                    s as int,
                ),
                leaf_index(inputs@, ts, j as int) == idx as nat + pow2(nbits as nat) * leaf_index(
                    levels@[k as int]@,
                    ts.skip(k as int),
                    s as int,
                ),
            decreases kmax - k,
        {
            let ghost cur = levels@[k as int]@;
            let ghost rem = ts.skip(k as int);
            proof {
                assert(rem[0] == ts[k as int]);
                assert(rem.skip(1) =~= ts.skip(k as int + 1));
                assert(levels@[k as int + 1]@ == next_level_spec(cur, ts[k as int]));
            }
            let row = &levels[k];
            let lv_len = row.len();
            let ghost rest_path = leaf_path(levels@[k as int + 1]@, ts.skip(k as int + 1), s as int / 2);
            let ghost rest_idx = leaf_index(levels@[k as int + 1]@, ts.skip(k as int + 1), s as int / 2);
            proof {
                assert(leaf_path(cur, rem, s as int) == if paired(s as int, cur.len() as int) {
                    seq![cur[sibling(s as int)]] + rest_path
                } else {
                    rest_path
                });
                assert(leaf_index(cur, rem, s as int) == if paired(s as int, cur.len() as int) {
                    (s as int % 2) as nat + 2 * rest_idx
                } else {
                    rest_idx
                });
                lemma_pow2_unfold(nbits as nat + 1);
            }
            let ghost prev_path = pathj@;
            if s % 2 == 0 && s + 1 < lv_len {
                let sib = row[s + 1].clone();
                pathj.push(sib);
                proof {
                    assert(prev_path + (seq![cur[sibling(s as int)]] + rest_path) =~= pathj@
                        + rest_path);
                    assert(idx as nat + pow2(nbits as nat) * (2 * rest_idx) == idx as nat + pow2(
                        nbits as nat + 1,
                    ) * rest_idx) by (nonlinear_arith)
                        requires
                            pow2(nbits as nat + 1) == 2 * pow2(nbits as nat),
                    ;
                }
                nbits += 1;
            } else if s % 2 == 1 {
                let sib = row[s - 1].clone();
                pathj.push(sib);
                proof {
                    assert(prev_path + (seq![cur[sibling(s as int)]] + rest_path) =~= pathj@
                        + rest_path);
                    if (nbits as nat) < 63 {
                        lemma_pow2_strictly_increases(nbits as nat, 63);
                    }
                    lemma_u64_shl_is_mul(1u64, nbits);
                    assert(idx as nat + pow2(nbits as nat) * (1 + 2 * rest_idx) == (idx as nat
                        + pow2(nbits as nat)) + pow2(nbits as nat + 1) * rest_idx)
                        by (nonlinear_arith)
                        requires
                            pow2(nbits as nat + 1) == 2 * pow2(nbits as nat),
                    ;
                }
                idx = idx + (1u64 << nbits);
                nbits += 1;
            }
            s = s / 2;
            k += 1;
        }
        proof {
            assert(ts.skip(kmax as int) =~= Seq::<Seq<FieldElement>>::empty());
            assert(leaf_path(inputs@, ts, j as int) =~= pathj@);
            assert(leaf_index(levels@[k as int]@, ts.skip(k as int), s as int) == 0);
            assert(leaf_index(inputs@, ts, j as int) == idx as nat) by (nonlinear_arith)
                requires
                    leaf_index(inputs@, ts, j as int) == idx as nat + pow2(nbits as nat)
                        * leaf_index(levels@[k as int]@, ts.skip(k as int), s as int),
                    leaf_index(levels@[k as int]@, ts.skip(k as int), s as int) == 0,
            ;
        }
        paths.push(pathj);
        indices.push(idx);
        j += 1;
    }
    let out: Result<(FieldElement, Vec<Vec<FieldElement>>, Vec<u64>), Error> = Ok(
        (root, paths, indices),
    );
    proof {
        assert(build_result_ok(oracle, inputs@, ts, out->Ok_0.0, out->Ok_0.1, out->Ok_0.2));
        assert(build_spec(oracle, inputs@, out));
    }
    out
}

/// Converts a vector of bits, most significant first, to the integer it
/// spells.
pub fn bits_to_integer(bits: Vec<u8>) -> (r: u64)
    requires
        bits@.len() <= 64,
    ensures
        r as nat == be_bits_value(bits@),
{
    let mut result: u64 = 0;
    let n = bits.len();
    let mut i: usize = 0;
    proof {
        lemma2_to64();
    }
    while i < n
        invariant
            0 <= i <= n,
            n == bits@.len() <= 64,
            result as nat == be_bits_value(bits@.take(i as int)),
            (result as nat) < pow2(i as nat),
        decreases n - i,
    {
        proof {
            lemma2_to64_rest();
            if (i as nat) < 63 {
                lemma_pow2_strictly_increases(i as nat, 63);
            }
            lemma_pow2_unfold((i + 1) as nat);
            assert(bits@.take(i as int + 1).drop_last() =~= bits@.take(i as int));
            assert(bits@.take(i as int + 1).last() == bits@[i as int]);
        }
        let b = bits[i];
        if b == 1 {
            result = result * 2 + 1;
        } else {
            result = result * 2;
        }
        i += 1;
    }
    proof {
        assert(bits@.take(n as int) =~= bits@);
        if n < 64 {
            lemma_pow2_strictly_increases(n as nat, 64);
        }
    }
    result
}

} // verus!
