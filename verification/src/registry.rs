use vstd::prelude::*;

use crate::bls::{
    bls_pairing_eq, g1_check, g1_compress_enc, g1_decode_ok, g1_from_uncompressed, g2_add,
    g2_add_enc, g2_compress_enc, g2_decode_ok, g2_from_uncompressed, g2_identity, g2_identity_enc,
    g2_sub, g2_sub_enc, hash_to_g1, hash_to_g1_enc,
};
use crate::encoding::{coord48, coord_ok, coord_to_be48, hex_bytes, hex_ok, hex_to_bytes};
use crate::errors::{BuildError, VerifyError};

verus! {

// An operator registry normalizes raw directory records into the
// verification engine's data model and computes the aggregate G2 public key
// once, at construction; a quorum verifier then decides, against that
// snapshot, whether a signature carries enough stake and passes the BLS
// pairing check.

/// One full unit of voting power, in the directory's fixed-point stake units.
pub const ONE_UNIT: u64 = 1000000000000000000;

/// The most operators a registry accepts: keeps the stake-percentage
/// arithmetic inside u128.
pub const MAX_OPERATORS: u64 = 1000000000000000000;

/// A raw operator record as the directory supplies it: coordinate fields are
/// decimal strings of curve-field elements ([c0, c1] for the G2 field), and
/// the stake is a fixed-point integer with `ONE_UNIT` per full unit.
pub struct RawOperator {
    pub id: String,
    pub operator_id: String,
    pub pubkey_g1_x: Vec<String>,
    pub pubkey_g1_y: Vec<String>,
    pub pubkey_g2_x: Vec<String>,
    pub pubkey_g2_y: Vec<String>,
    pub socket: String,
    pub stake: u128,
}

/// A normalized operator: decoded, subgroup-checked keys held as compressed
/// encodings, and the stake clamped to at most one full unit.
pub struct Operator {
    pub id: String,
    pub operator_id: String,
    pub socket: String,
    pub stake_weight: u64,
    pub public_key_g1: Vec<u8>,
    pub public_key_g2: Vec<u8>,
}

/// The mathematical value of an `Operator`.
pub struct OperatorModel {
    pub id: Seq<char>,
    pub operator_id: Seq<char>,
    pub socket: Seq<char>,
    pub stake_weight: int,
    pub public_key_g1: Seq<u8>,
    pub public_key_g2: Seq<u8>,
}

impl View for Operator {
    type V = OperatorModel;

    open spec fn view(&self) -> OperatorModel {
        OperatorModel {
            id: self.id@,
            operator_id: self.operator_id@,
            socket: self.socket@,
            stake_weight: self.stake_weight as int,
            public_key_g1: self.public_key_g1@,
            public_key_g2: self.public_key_g2@,
        }
    }
}

/// The 192-byte uncompressed G2 encoding a record's coordinates denote:
/// x_c1, x_c0, y_c1, y_c0, each 48 bytes big-endian.
pub open spec fn g2_uncompressed_of(r: RawOperator) -> Seq<u8> {
    coord48(r.pubkey_g2_x@[1]@) + coord48(r.pubkey_g2_x@[0]@) + coord48(r.pubkey_g2_y@[1]@)
        + coord48(r.pubkey_g2_y@[0]@)
}

/// The 96-byte uncompressed G1 encoding a record's coordinates denote.
pub open spec fn g1_uncompressed_of(r: RawOperator) -> Seq<u8> {
    coord48(r.pubkey_g1_x@[0]@) + coord48(r.pubkey_g1_y@[0]@)
}

/// Whether a raw record decodes: the coordinate fields are present, are
/// field-element-sized decimal numbers, and denote points accepted onto the
/// two curves' q-order subgroups.
pub open spec fn record_ok(r: RawOperator) -> bool {
    &&& r.pubkey_g1_x@.len() == 1
    &&& r.pubkey_g1_y@.len() == 1
    &&& r.pubkey_g2_x@.len() == 2
    &&& r.pubkey_g2_y@.len() == 2
    &&& coord_ok(r.pubkey_g1_x@[0]@)
    &&& coord_ok(r.pubkey_g1_y@[0]@)
    &&& coord_ok(r.pubkey_g2_x@[0]@)
    &&& coord_ok(r.pubkey_g2_x@[1]@)
    &&& coord_ok(r.pubkey_g2_y@[0]@)
    &&& coord_ok(r.pubkey_g2_y@[1]@)
    &&& g1_compress_enc(g1_uncompressed_of(r)) is Some
    &&& g2_compress_enc(g2_uncompressed_of(r)) is Some
}

/// The operator a raw record normalizes to.
pub open spec fn normalize_record(r: RawOperator) -> OperatorModel {
    OperatorModel {
        id: r.id@,
        operator_id: r.operator_id@,
        socket: r.socket@,
        stake_weight: if r.stake >= ONE_UNIT as u128 {
            ONE_UNIT as int
        } else {
            r.stake as int
        },
        public_key_g1: match g1_compress_enc(g1_uncompressed_of(r)) {
            Some(k) => k,
            None => Seq::empty(),
        },
        public_key_g2: match g2_compress_enc(g2_uncompressed_of(r)) {
            Some(k) => k,
            None => Seq::empty(),
        },
    }
}

pub open spec fn contains_id(ops: Seq<OperatorModel>, id: Seq<char>) -> bool {
    exists|k: int| 0 <= k < ops.len() && ops[k].id == id
}

pub open spec fn index_of_id(ops: Seq<OperatorModel>, id: Seq<char>) -> int {
    choose|k: int| 0 <= k < ops.len() && ops[k].id == id
}

pub open spec fn unique_ids(ops: Seq<OperatorModel>) -> bool {
    forall|j: int, k: int| 0 <= j < k < ops.len() ==> ops[j].id != ops[k].id
}

/// Inserting a normalized record: a record whose id is already present
/// replaces that operator in place, so ids stay unique within a snapshot.
pub open spec fn upsert(ops: Seq<OperatorModel>, op: OperatorModel) -> Seq<OperatorModel> {
    if contains_id(ops, op.id) {
        ops.update(index_of_id(ops, op.id), op)
    } else {
        ops.push(op)
    }
}

/// The registry snapshot a record list normalizes to, first record first.
pub open spec fn normalize_records(rs: Seq<RawOperator>) -> Seq<OperatorModel>
    decreases rs.len(),
{
    if rs.len() == 0 {
        Seq::empty()
    } else {
        upsert(normalize_records(rs.drop_last()), normalize_record(rs.last()))
    }
}

/// The iterated G2 group sum of a key list, identity element as seed.
pub open spec fn g2_sum_fold(keys: Seq<Seq<u8>>) -> Seq<u8>
    decreases keys.len(),
{
    if keys.len() == 0 {
        g2_identity_enc()
    } else {
        g2_add_enc(g2_sum_fold(keys.drop_last()), keys.last())
    }
}

/// The G2 keys of a snapshot, in registry order.
pub open spec fn keys_of(ops: Seq<OperatorModel>) -> Seq<Seq<u8>> {
    ops.map(|i: int, op: OperatorModel| op.public_key_g2)
}

/// The registry's total stake.
pub open spec fn total_stake(ops: Seq<OperatorModel>) -> int
    decreases ops.len(),
{
    if ops.len() == 0 {
        0
    } else {
        total_stake(ops.drop_last()) + ops.last().stake_weight
    }
}

/// A verifier bound to one immutable registry snapshot: the operators, the
/// aggregate of their G2 keys, and the stake threshold a quorum must meet.
pub struct Zellular {
    app_name: String,
    base_url: String,
    threshold_percent: u64,
    operators: Vec<Operator>,
    aggregated_public_key: Vec<u8>,
}

/// The mathematical value of a registry snapshot.
pub struct RegistryModel {
    pub app_name: Seq<char>,
    pub base_url: Seq<char>,
    pub threshold_percent: int,
    pub operators: Seq<OperatorModel>,
    pub aggregated_public_key: Seq<u8>,
}

impl View for Zellular {
    type V = RegistryModel;

    closed spec fn view(&self) -> RegistryModel {
        RegistryModel {
            app_name: self.app_name@,
            base_url: self.base_url@,
            threshold_percent: self.threshold_percent as int,
            operators: self.operators@.map(|i: int, op: Operator| op@),
            aggregated_public_key: self.aggregated_public_key@,
        }
    }
}

pub open spec fn op_valid(op: OperatorModel) -> bool {
    &&& 0 <= op.stake_weight <= ONE_UNIT as int
    &&& g2_decode_ok(op.public_key_g2)
    &&& op.public_key_g2.len() == 96
    &&& g1_decode_ok(op.public_key_g1)
    &&& op.public_key_g1.len() == 48
}

/// A well-formed snapshot: bounded size and threshold, valid operators with
/// unique ids, and the aggregate key always the group sum over the current
/// operators, never incrementally patched.
pub open spec fn registry_wf(m: RegistryModel) -> bool {
    &&& m.operators.len() <= MAX_OPERATORS as int
    &&& 0 <= m.threshold_percent <= 100
    &&& forall|k: int| 0 <= k < m.operators.len() ==> op_valid(#[trigger] m.operators[k])
    &&& unique_ids(m.operators)
    &&& m.aggregated_public_key == g2_sum_fold(keys_of(m.operators))
    &&& g2_decode_ok(m.aggregated_public_key)
}

impl Zellular {
    #[verifier::type_invariant]
    spec fn wf(self) -> bool {
        registry_wf(self@)
    }

    pub fn app_name(&self) -> (r: &String)
        ensures
            r@ == self@.app_name,
    {
        &self.app_name
    }

    pub fn base_url(&self) -> (r: &String)
        ensures
            r@ == self@.base_url,
    {
        &self.base_url
    }

    pub fn aggregated_public_key(&self) -> (r: &Vec<u8>)
        ensures
            r@ == self@.aggregated_public_key,
    {
        &self.aggregated_public_key
    }

    pub fn operators_len(&self) -> (r: usize)
        ensures
            r as int == self@.operators.len(),
    {
        self.operators.len()
    }
}

fn append_bytes(dst: &mut Vec<u8>, src: &Vec<u8>)
    ensures
        final(dst)@ == old(dst)@ + src@,
{
    let mut i: usize = 0;
    #[verifier::loop_isolation(false)]
    while i < src.len()
        invariant
            i <= src@.len(),
            dst@ == old(dst)@ + src@.subrange(0, i as int),
        decreases src@.len() - i,
    {
        dst.push(src[i]);
        proof {
            assert(old(dst)@ + src@.subrange(0, i as int + 1) =~= (old(dst)@ + src@.subrange(
                0,
                i as int,
            )).push(src@[i as int]));
        }
        i = i + 1;
    }
    proof {
        assert(src@.subrange(0, src@.len() as int) =~= src@);
    }
}

/// Decodes and normalizes one raw record, rejecting records whose
/// coordinates are missing, malformed, or denote points off the curve or
/// outside the q-order subgroup.
fn decode_record(rec: &RawOperator) -> (r: Result<Operator, BuildError>)
    ensures
        r is Ok <==> record_ok(*rec),
        r matches Ok(op) ==> op@ == normalize_record(*rec) && op_valid(op@),
{
    if rec.pubkey_g1_x.len() != 1 || rec.pubkey_g1_y.len() != 1 || rec.pubkey_g2_x.len() != 2
        || rec.pubkey_g2_y.len() != 2 {
        return Err(BuildError::MalformedOperatorRecord);
    }
    let g1x = match coord_to_be48(rec.pubkey_g1_x[0].as_str()) {
        Some(v) => v,
        None => {
            return Err(BuildError::MalformedOperatorRecord);
        },
    };
    let g1y = match coord_to_be48(rec.pubkey_g1_y[0].as_str()) {
        Some(v) => v,
        None => {
            return Err(BuildError::MalformedOperatorRecord);
        },
    };
    let g2x0 = match coord_to_be48(rec.pubkey_g2_x[0].as_str()) {
        Some(v) => v,
        None => {
            return Err(BuildError::MalformedOperatorRecord);
        },
    };
    let g2x1 = match coord_to_be48(rec.pubkey_g2_x[1].as_str()) {
        Some(v) => v,
        None => {
            return Err(BuildError::MalformedOperatorRecord);
        },
    };
    let g2y0 = match coord_to_be48(rec.pubkey_g2_y[0].as_str()) {
        Some(v) => v,
        None => {
            return Err(BuildError::MalformedOperatorRecord);
        },
    };
    let g2y1 = match coord_to_be48(rec.pubkey_g2_y[1].as_str()) {
        Some(v) => v,
        None => {
            return Err(BuildError::MalformedOperatorRecord);
        },
    };
    let mut g1_unc: Vec<u8> = Vec::new();
    append_bytes(&mut g1_unc, &g1x);
    append_bytes(&mut g1_unc, &g1y);
    proof {
        assert(g1_unc@ =~= g1_uncompressed_of(*rec));
    }
    let pk1 = match g1_from_uncompressed(&g1_unc) {
        Some(k) => k,
        None => {
            return Err(BuildError::MalformedOperatorRecord);
        },
    };
    let mut g2_unc: Vec<u8> = Vec::new();
    append_bytes(&mut g2_unc, &g2x1);
    append_bytes(&mut g2_unc, &g2x0);
    append_bytes(&mut g2_unc, &g2y1);
    append_bytes(&mut g2_unc, &g2y0);
    proof {
        assert(g2_unc@ =~= g2_uncompressed_of(*rec));
    }
    let pk2 = match g2_from_uncompressed(&g2_unc) {
        Some(k) => k,
        None => {
            return Err(BuildError::MalformedOperatorRecord);
        },
    };
    let stake_weight: u64 = if rec.stake >= ONE_UNIT as u128 {
        ONE_UNIT
    } else {
        rec.stake as u64
    };
    Ok(Operator {
        id: rec.id.clone(),
        operator_id: rec.operator_id.clone(),
        socket: rec.socket.clone(),
        stake_weight,
        public_key_g1: pk1,
        public_key_g2: pk2,
    })
}

pub open spec fn models_of(ops: Seq<Operator>) -> Seq<OperatorModel> {
    ops.map(|i: int, op: Operator| op@)
}

proof fn lemma_index_of_unique(ops: Seq<OperatorModel>, k: int)
    requires
        unique_ids(ops),
        0 <= k < ops.len(),
    ensures
        contains_id(ops, ops[k].id),
        index_of_id(ops, ops[k].id) == k,
{
    assert(contains_id(ops, ops[k].id));
    let j = index_of_id(ops, ops[k].id);
    assert(0 <= j < ops.len() && ops[j].id == ops[k].id);
    if j != k {
        assert(false);
    }
}

impl Zellular {
    /// Builds a verifier from a directory snapshot: every record is decoded
    /// and normalized (or the whole build fails), a later record with an
    /// already-seen id replaces the earlier operator, and the aggregate G2
    /// key is computed as the iterated group sum over the final snapshot.
    pub fn new(
        app_name: &str,
        base_url: &str,
        threshold_percent: u64,
        raw_operators: &Vec<RawOperator>,
    ) -> (r: Result<Zellular, BuildError>)
        requires
            threshold_percent <= 100,
            raw_operators@.len() <= MAX_OPERATORS as int,
        ensures
            r is Ok <==> (forall|k: int|
                0 <= k < raw_operators@.len() ==> record_ok(#[trigger] raw_operators@[k])),
            r matches Err(e) ==> e == BuildError::MalformedOperatorRecord,
            r matches Ok(z) ==> z@.operators == normalize_records(raw_operators@)
                && z@.aggregated_public_key == g2_sum_fold(keys_of(z@.operators)) && z@.app_name
                == app_name@ && z@.base_url == base_url@ && z@.threshold_percent
                == threshold_percent as int,
    {
        let mut ops: Vec<Operator> = Vec::new();
        let mut i: usize = 0;
        proof {
            assert(models_of(ops@) =~= Seq::<OperatorModel>::empty());
            assert(raw_operators@.subrange(0, 0) =~= Seq::<RawOperator>::empty());
        }
        #[verifier::loop_isolation(false)]
        while i < raw_operators.len()
            invariant
                i <= raw_operators@.len(),
                forall|k: int| 0 <= k < i ==> record_ok(#[trigger] raw_operators@[k]),
                models_of(ops@) == normalize_records(raw_operators@.subrange(0, i as int)),
                unique_ids(models_of(ops@)),
                ops@.len() <= i,
                forall|k: int| 0 <= k < ops@.len() ==> op_valid(#[trigger] models_of(ops@)[k]),
            decreases raw_operators@.len() - i,
        {
            let op = match decode_record(&raw_operators[i]) {
                Ok(op) => op,
                Err(e) => {
                    return Err(e);
                },
            };
            let ghost pre_models = models_of(ops@);
            let ghost opm = op@;
            let mut found: Option<usize> = None;
            let mut k: usize = 0;
            #[verifier::loop_isolation(false)]
            while k < ops.len()
                invariant
                    k <= ops@.len(),
                    found is None ==> forall|t: int| 0 <= t < k ==> models_of(ops@)[t].id != opm.id,
                    found matches Some(f) ==> f < ops@.len() && models_of(ops@)[f as int].id
                        == opm.id,
                decreases ops@.len() - k,
            {
                if found.is_none() && ops[k].id == op.id {
                    found = Some(k);
                }
                k = k + 1;
            }
            match found {
                Some(f) => {
                    proof {
                        lemma_index_of_unique(pre_models, f as int);
                    }
                    ops.set(f, op);
                    proof {
                        assert(models_of(ops@) =~= pre_models.update(f as int, opm));
                        assert(models_of(ops@) == upsert(pre_models, opm));
                    }
                },
                None => {
                    proof {
                        assert(!contains_id(pre_models, opm.id));
                    }
                    ops.push(op);
                    proof {
                        assert(models_of(ops@) =~= pre_models.push(opm));
                        assert(models_of(ops@) == upsert(pre_models, opm));
                    }
                },
            }
            proof {
                let rs = raw_operators@.subrange(0, i as int + 1);
                assert(rs.drop_last() =~= raw_operators@.subrange(0, i as int));
                assert(rs.last() == raw_operators@[i as int]);
                assert(normalize_records(rs) == upsert(pre_models, opm));
            }
            i = i + 1;
        }
        proof {
            assert(raw_operators@.subrange(0, raw_operators@.len() as int) =~= raw_operators@);
        }
        let final_models = Ghost(models_of(ops@));
        let mut agg: Vec<u8> = g2_identity();
        let mut a: usize = 0;
        proof {
            assert(keys_of(final_models@).subrange(0, 0) =~= Seq::<Seq<u8>>::empty());
        }
        #[verifier::loop_isolation(false)]
        while a < ops.len()
            invariant
                a <= ops@.len(),
                g2_decode_ok(agg@),
                agg@ == g2_sum_fold(keys_of(final_models@).subrange(0, a as int)),
            decreases ops@.len() - a,
        {
            proof {
                assert(models_of(ops@)[a as int] == ops@[a as int]@);
                assert(op_valid(models_of(ops@)[a as int]));
            }
            let next = g2_add(&agg, &ops[a].public_key_g2);
            proof {
                let ks = keys_of(final_models@);
                assert(ks.subrange(0, a as int + 1).drop_last() =~= ks.subrange(0, a as int));
                assert(ks.subrange(0, a as int + 1).last() == ops@[a as int]@.public_key_g2);
            }
            agg = next;
            a = a + 1;
        }
        proof {
            assert(keys_of(final_models@).subrange(0, ops@.len() as int) =~= keys_of(
                final_models@,
            ));
        }
        let z = Zellular {
            app_name: app_name.to_owned(),
            base_url: base_url.to_owned(),
            threshold_percent,
            operators: ops,
            aggregated_public_key: agg,
        };
        proof {
            assert(z@.operators == models_of(z.operators@));
        }
        Ok(z)
    }
}

/// The ids a caller names, as character sequences.
pub open spec fn ids_of(ns: Seq<String>) -> Seq<Seq<char>> {
    ns.map(|i: int, s: String| s@)
}

/// The first occurrence of each id, in order: a duplicated non-signer id
/// counts once, so no key is subtracted twice and no stake double-counted.
pub open spec fn dedup_ids(ids: Seq<Seq<char>>) -> Seq<Seq<char>>
    decreases ids.len(),
{
    if ids.len() == 0 {
        Seq::empty()
    } else {
        let d = dedup_ids(ids.drop_last());
        if d.contains(ids.last()) {
            d
        } else {
            d.push(ids.last())
        }
    }
}

/// Deduplication keeps exactly the ids that were named.
proof fn lemma_dedup_membership(ids: Seq<Seq<char>>, x: Seq<char>)
    ensures
        dedup_ids(ids).contains(x) <==> ids.contains(x),
    decreases ids.len(),
{
    if ids.len() > 0 {
        lemma_dedup_membership(ids.drop_last(), x);
        let d = dedup_ids(ids.drop_last());
        if x == ids.last() {
            assert(ids[ids.len() - 1] == x);
            assert(ids.contains(x));
            if d.contains(x) {
            } else {
                assert(d.push(x)[d.len() as int] == x);
                assert(dedup_ids(ids).contains(x));
            }
        } else {
            if ids.contains(x) {
                let k = choose|k: int| 0 <= k < ids.len() && ids[k] == x;
                assert(k < ids.len() - 1);
                assert(ids.drop_last()[k] == x);
                assert(ids.drop_last().contains(x));
                if d.contains(x) {
                    let t = choose|t: int| 0 <= t < d.len() && d[t] == x;
                    if !d.contains(ids.last()) {
                        assert(d.push(ids.last())[t] == x);
                    }
                    assert(dedup_ids(ids).contains(x));
                }
            }
            if dedup_ids(ids).contains(x) {
                let t = choose|t: int| 0 <= t < dedup_ids(ids).len() && dedup_ids(ids)[t] == x;
                if d.contains(ids.last()) {
                    assert(d.contains(x));
                } else {
                    assert(t < d.len());
                    assert(d[t] == x);
                    assert(d.contains(x));
                }
                assert(ids.drop_last().contains(x));
                let k = choose|k: int| 0 <= k < ids.drop_last().len() && ids.drop_last()[k] == x;
                assert(ids[k] == x);
                assert(ids.contains(x));
            }
        }
    }
}

/// The stake of the operator holding an id.
pub open spec fn stake_of(ops: Seq<OperatorModel>, id: Seq<char>) -> int {
    ops[index_of_id(ops, id)].stake_weight
}

/// The G2 key of the operator holding an id.
pub open spec fn key_of(ops: Seq<OperatorModel>, id: Seq<char>) -> Seq<u8> {
    ops[index_of_id(ops, id)].public_key_g2
}

/// The combined stake of the named operators.
pub open spec fn ids_stake(ops: Seq<OperatorModel>, ids: Seq<Seq<char>>) -> int
    decreases ids.len(),
{
    if ids.len() == 0 {
        0
    } else {
        ids_stake(ops, ids.drop_last()) + stake_of(ops, ids.last())
    }
}

/// Iterated G2 group subtraction from an accumulator.
pub open spec fn g2_sub_fold(acc: Seq<u8>, keys: Seq<Seq<u8>>) -> Seq<u8>
    decreases keys.len(),
{
    if keys.len() == 0 {
        acc
    } else {
        g2_sub_enc(g2_sub_fold(acc, keys.drop_last()), keys.last())
    }
}

/// The effective quorum key: the aggregate minus each declared non-signer's
/// key, duplicates removed first.
pub open spec fn effective_key(m: RegistryModel, ids: Seq<Seq<char>>) -> Seq<u8> {
    g2_sub_fold(
        m.aggregated_public_key,
        dedup_ids(ids).map(|i: int, id: Seq<char>| key_of(m.operators, id)),
    )
}

/// The quorum policy: the non-signers' stake share may not exceed what the
/// threshold leaves over.
pub open spec fn quorum_met(m: RegistryModel, ids: Seq<Seq<char>>) -> bool {
    100 * ids_stake(m.operators, dedup_ids(ids)) <= (100 - m.threshold_percent) * total_stake(
        m.operators,
    )
}

/// When a signature is accepted: the declared non-signers leave enough stake,
/// the signature is a canonical G1 encoding, and the BLS pairing equality
/// holds for the message's hash point against the effective quorum key.
pub open spec fn signature_accepted(
    m: RegistryModel,
    msg: Seq<char>,
    sig_hex: Seq<char>,
    ids: Seq<Seq<char>>,
) -> bool {
    let sb = vstd::utf8::encode_utf8(sig_hex);
    &&& quorum_met(m, ids)
    &&& hex_ok(sb)
    &&& hex_bytes(sb).len() == 48
    &&& g1_decode_ok(hex_bytes(sb))
    &&& bls_pairing_eq(
        hex_bytes(sb),
        hash_to_g1_enc(vstd::utf8::encode_utf8(msg)),
        effective_key(m, ids),
    )
}

impl Zellular {
    /// Decides whether a signature carries a stake-weighted quorum for the
    /// message. A non-signer id absent from the registry and an all-zero
    /// total stake are errors, never a silent `false`; a missed quorum or a
    /// failed pairing check is the normal `Ok(false)`.
    pub fn verify_signature(
        &self,
        message: &str,
        signature_hex: &str,
        nonsigners: &Vec<String>,
    ) -> (r: Result<bool, VerifyError>)
        requires
            nonsigners@.len() <= MAX_OPERATORS as int,
        ensures
            r == Result::<bool, VerifyError>::Err(VerifyError::UnknownOperator) <==> (exists|
                k: int,
            |
                0 <= k < nonsigners@.len() && !contains_id(
                    self@.operators,
                    #[trigger] nonsigners@[k]@,
                )),
            r == Result::<bool, VerifyError>::Err(VerifyError::EmptyOperatorSet) <==> ((forall|
                k: int,
            |
                0 <= k < nonsigners@.len() ==> contains_id(
                    self@.operators,
                    #[trigger] nonsigners@[k]@,
                )) && total_stake(self@.operators) == 0),
            r matches Ok(b) ==> b == signature_accepted(
                self@,
                message@,
                signature_hex@,
                ids_of(nonsigners@),
            ),
    {
        proof {
            use_type_invariant(self);
        }
        let ghost m = self@;
        let ghost all_ids = ids_of(nonsigners@);
        // Deduplicate the declared non-signers, keeping first occurrences.
        let mut dd: Vec<String> = Vec::new();
        let mut i: usize = 0;
        proof {
            assert(ids_of(dd@) =~= Seq::<Seq<char>>::empty());
            assert(all_ids.subrange(0, 0) =~= Seq::<Seq<char>>::empty());
        }
        #[verifier::loop_isolation(false)]
        while i < nonsigners.len()
            invariant
                i <= nonsigners@.len(),
                dd@.len() <= i,
                ids_of(dd@) == dedup_ids(all_ids.subrange(0, i as int)),
            decreases nonsigners@.len() - i,
        {
            let ghost pre = ids_of(dd@);
            let mut seen = false;
            let mut t: usize = 0;
            #[verifier::loop_isolation(false)]
            while t < dd.len()
                invariant
                    t <= dd@.len(),
                    seen ==> pre.contains(nonsigners@[i as int]@),
                    !seen ==> forall|u: int| 0 <= u < t ==> pre[u] != nonsigners@[i as int]@,
                decreases dd@.len() - t,
            {
                if dd[t] == nonsigners[i] {
                    seen = true;
                    proof {
                        assert(pre[t as int] == nonsigners@[i as int]@);
                    }
                }
                t = t + 1;
            }
            proof {
                let sub1 = all_ids.subrange(0, i as int + 1);
                assert(sub1.drop_last() =~= all_ids.subrange(0, i as int));
                assert(sub1.last() == nonsigners@[i as int]@);
            }
            if !seen {
                proof {
                    assert(!pre.contains(nonsigners@[i as int]@));
                }
                dd.push(nonsigners[i].clone());
                proof {
                    assert(ids_of(dd@) =~= pre.push(nonsigners@[i as int]@));
                }
            }
            i = i + 1;
        }
        proof {
            assert(all_ids.subrange(0, nonsigners@.len() as int) =~= all_ids);
        }
        let ghost dids = dedup_ids(all_ids);
        let ghost dkeys = dids.map(|q: int, id: Seq<char>| key_of(m.operators, id));
        // Resolve each non-signer, summing stake and subtracting keys.
        let mut eff: Vec<u8> = Vec::new();
        append_bytes(&mut eff, &self.aggregated_public_key);
        proof {
            assert(eff@ =~= m.aggregated_public_key);
            assert(dkeys.subrange(0, 0) =~= Seq::<Seq<u8>>::empty());
        }
        let mut ns_total: u128 = 0;
        let mut j: usize = 0;
        #[verifier::loop_isolation(false)]
        while j < dd.len()
            invariant
                j <= dd@.len(),
                g2_decode_ok(eff@),
                eff@ == g2_sub_fold(m.aggregated_public_key, dkeys.subrange(0, j as int)),
                ns_total as int == ids_stake(m.operators, dids.subrange(0, j as int)),
                ns_total <= j as u128 * (ONE_UNIT as u128),
                forall|u: int| 0 <= u < j ==> contains_id(m.operators, #[trigger] dids[u]),
            decreases dd@.len() - j,
        {
            let mut found: Option<usize> = None;
            let mut k: usize = 0;
            #[verifier::loop_isolation(false)]
            while k < self.operators.len()
                invariant
                    k <= self.operators@.len(),
                    found is None ==> forall|u: int|
                        0 <= u < k ==> m.operators[u].id != dids[j as int],
                    found matches Some(f) ==> f < self.operators@.len() && m.operators[
                        f as int
                    ].id == dids[j as int],
                decreases self.operators@.len() - k,
            {
                if found.is_none() && self.operators[k].id == dd[j] {
                    found = Some(k);
                    proof {
                        assert(m.operators[k as int].id == dids[j as int]);
                    }
                }
                k = k + 1;
            }
            let f = match found {
                Some(f) => f,
                None => {
                    proof {
                        assert(!contains_id(m.operators, dids[j as int]));
                        lemma_dedup_membership(all_ids, dids[j as int]);
                        assert(dids.contains(dids[j as int]));
                        assert(all_ids.contains(dids[j as int]));
                        let w = choose|w: int|
                            0 <= w < all_ids.len() && all_ids[w] == dids[j as int];
                        assert(!contains_id(m.operators, nonsigners@[w]@));
                    }
                    return Err(VerifyError::UnknownOperator);
                },
            };
            proof {
                lemma_index_of_unique(m.operators, f as int);
                assert(stake_of(m.operators, dids[j as int]) == m.operators[f as int].stake_weight);
                assert(key_of(m.operators, dids[j as int]) == m.operators[f as int].public_key_g2);
                assert(op_valid(m.operators[f as int]));
                assert(dids.subrange(0, j as int + 1).drop_last() =~= dids.subrange(0, j as int));
                assert(dkeys.subrange(0, j as int + 1).drop_last() =~= dkeys.subrange(0, j as int));
                assert(dkeys.subrange(0, j as int + 1).last() == dkeys[j as int]);
                assert(dkeys[j as int] == key_of(m.operators, dids[j as int]));
                assert(j as u128 * (ONE_UNIT as u128) + (ONE_UNIT as u128) == (j + 1) as u128 * (
                ONE_UNIT as u128)) by (nonlinear_arith);
            }
            let op = &self.operators[f];
            ns_total = ns_total + op.stake_weight as u128;
            let next_eff = g2_sub(&eff, &op.public_key_g2);
            eff = next_eff;
            j = j + 1;
        }
        proof {
            assert(dids.subrange(0, dd@.len() as int) =~= dids);
            assert(dkeys.subrange(0, dd@.len() as int) =~= dkeys);
            assert(forall|k: int|
                0 <= k < nonsigners@.len() ==> contains_id(
                    m.operators,
                    #[trigger] nonsigners@[k]@,
                )) by {
                assert forall|k: int| 0 <= k < nonsigners@.len() implies contains_id(
                    m.operators,
                    #[trigger] nonsigners@[k]@,
                ) by {
                    assert(all_ids[k] == nonsigners@[k]@);
                    assert(all_ids.contains(nonsigners@[k]@));
                    lemma_dedup_membership(all_ids, nonsigners@[k]@);
                    let w = choose|w: int| 0 <= w < dids.len() && dids[w] == nonsigners@[k]@;
                    assert(contains_id(m.operators, dids[w]));
                }
            }
        }
        // Total registered stake; an empty total admits no quorum share.
        let mut total: u128 = 0;
        let mut c: usize = 0;
        proof {
            assert(m.operators.subrange(0, 0) =~= Seq::<OperatorModel>::empty());
        }
        #[verifier::loop_isolation(false)]
        while c < self.operators.len()
            invariant
                c <= self.operators@.len(),
                total as int == total_stake(m.operators.subrange(0, c as int)),
                total <= c as u128 * (ONE_UNIT as u128),
            decreases self.operators@.len() - c,
        {
            proof {
                assert(op_valid(m.operators[c as int]));
                assert(m.operators.subrange(0, c as int + 1).drop_last() =~= m.operators.subrange(
                    0,
                    c as int,
                ));
                assert(m.operators.subrange(0, c as int + 1).last() == m.operators[c as int]);
                assert(c as u128 * (ONE_UNIT as u128) + (ONE_UNIT as u128) == (c + 1) as u128 * (
                ONE_UNIT as u128)) by (nonlinear_arith);
            }
            total = total + self.operators[c].stake_weight as u128;
            c = c + 1;
        }
        proof {
            assert(m.operators.subrange(0, m.operators.len() as int) =~= m.operators);
        }
        if total == 0 {
            return Err(VerifyError::EmptyOperatorSet);
        }
        // The quorum policy is decided before any pairing work.
        proof {
            let unit = ONE_UNIT as u128;
            let cap = MAX_OPERATORS as u128;
            assert(dd@.len() as u128 * unit <= cap * unit) by (nonlinear_arith)
                requires
                    dd@.len() as u128 <= cap,
            ;
            assert(m.operators.len() as u128 * unit <= cap * unit) by (nonlinear_arith)
                requires
                    m.operators.len() as u128 <= cap,
            ;
            assert(cap * unit == 1000000000000000000000000000000000000u128) by (nonlinear_arith)
                requires
                    cap == 1000000000000000000u128,
                    unit == 1000000000000000000u128,
            ;
            assert((100 - self.threshold_percent) as u128 * total
                <= 100000000000000000000000000000000000000u128) by (nonlinear_arith)
                requires
                    (100 - self.threshold_percent) as u128 <= 100,
                    total <= 1000000000000000000000000000000000000u128,
            ;
        }
        let lhs: u128 = 100 * ns_total;
        let rhs: u128 = (100 - self.threshold_percent) as u128 * total;
        if lhs > rhs {
            return Ok(false);
        }
        // Decode and check the claimed signature.
        let sig = match hex_to_bytes(signature_hex) {
            Some(v) => v,
            None => {
                return Ok(false);
            },
        };
        if sig.len() != 48 {
            return Ok(false);
        }
        if !g1_check(&sig) {
            return Ok(false);
        }
        // The pairing check against the effective quorum key.
        let msg_bytes = vstd::slice::slice_to_vec(message.as_bytes());
        let hpoint = hash_to_g1(&msg_bytes);
        let accepted = crate::bls::pairing_check(&sig, &hpoint, &eff);
        Ok(accepted)
    }
}

} // verus!
