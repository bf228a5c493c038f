//! The registry of resolved type definitions, and the registration of declaration batches.
use std::sync::Arc;
use vstd::prelude::*;
use crate::attributes::{refs_of, TypeDefinition};
use crate::cycle::{
    depends_on, detect_minimal_cycle, find_key, has_key, is_first_entry,
    key_index, lemma_first_unique, lemma_key_index, ranked_by,
};
use crate::instance::{
    instantiates, key_type_refused, type_text, InstantiationError, TypeDefinitionInstance,
};

verus! {

broadcast use vstd::seq_lib::group_to_multiset_ensures;

/// The registered instances, in registration order; identifiers and names are unique when
/// `wf` holds.
#[derive(Debug)]
struct Store {
    types: Vec<Arc<TypeDefinitionInstance>>,
}

/// A registry of resolved type definitions, each with a unique identifier and a unique name.
/// It only grows: a registration adds instances and never replaces one.
#[derive(Debug)]
pub struct TypeDefinitionRegistry {
    store: Store,
}

/// Why a declaration of a batch was not registered.
#[derive(Debug, Clone, PartialEq, Eq)]
pub enum RegistrationError {
    /// A type definition with the same identifier exists; its name is given.
    DuplicateTypeDefinition { existing_name: String },
    /// A type definition with the same name exists; its identifier is given.
    DuplicateTypeDefinitionName { existing_id: u64 },
    /// A reference names an identifier that is neither registered nor declared in the batch.
    BrokenReference { referenced_id: u64 },
    /// The declaration lies on a reference cycle, given as closed list of identifiers and names.
    CircularReference { cycle: Vec<(u64, String)> },
    /// The declaration depends on a declaration that cannot be registered.
    BlockedReference,
    /// The attributes could not be instantiated.
    InstantiationError(InstantiationError),
}

/// Whether an instance of the registry has the identifier.
pub open spec fn has_id(reg: Seq<Arc<TypeDefinitionInstance>>, id: u64) -> bool {
    exists|k: int| 0 <= k < reg.len() && #[trigger] reg[k].spec_id() == id
}

/// Whether an instance of the registry has the name.
pub open spec fn has_name(reg: Seq<Arc<TypeDefinitionInstance>>, name: Seq<char>) -> bool {
    exists|k: int| 0 <= k < reg.len() && #[trigger] reg[k].spec_name()@ == name
}

/// Whether no two instances share an identifier or a name.
pub open spec fn unique_keys(reg: Seq<Arc<TypeDefinitionInstance>>) -> bool {
    forall|a: int, b: int|
        0 <= a < reg.len() && 0 <= b < reg.len() && a != b ==> #[trigger] reg[a].spec_id()
            != #[trigger] reg[b].spec_id() && reg[a].spec_name()@ != reg[b].spec_name()@
}

/// The instance with the identifier.
pub open spec fn lookup(reg: Seq<Arc<TypeDefinitionInstance>>, id: u64) -> Arc<TypeDefinitionInstance> {
    reg[choose|k: int| 0 <= k < reg.len() && #[trigger] reg[k].spec_id() == id]
}

/// The instances that the identifiers resolve to.
pub open spec fn resolve(reg: Seq<Arc<TypeDefinitionInstance>>, refs: Seq<u64>) -> Seq<Arc<TypeDefinitionInstance>> {
    refs.map_values(|r: u64| lookup(reg, r))
}

/// Whether every identifier is registered.
pub open spec fn all_registered(reg: Seq<Arc<TypeDefinitionInstance>>, refs: Seq<u64>) -> bool {
    forall|k: int| 0 <= k < refs.len() ==> has_id(reg, #[trigger] refs[k])
}

/// Whether a declaration can make no progress against the registry: its identifier and name are
/// free but one of its references is not registered.
pub open spec fn stuck(reg: Seq<Arc<TypeDefinitionInstance>>, d: TypeDefinition) -> bool {
    &&& !has_id(reg, d.id)
    &&& !has_name(reg, d.name@)
    &&& !all_registered(reg, refs_of(d.attributes))
}

/// Whether `inst` was made from `d` against the registry `reg`: same identifier and name, every
/// reference registered, and the attributes instantiated with the instances they name.
pub open spec fn registered_from(
    reg: Seq<Arc<TypeDefinitionInstance>>,
    d: TypeDefinition,
    inst: Arc<TypeDefinitionInstance>,
) -> bool {
    &&& inst.spec_id() == d.id
    &&& inst.spec_name() == d.name
    &&& all_registered(reg, refs_of(d.attributes))
    &&& instantiates(d.attributes, resolve(reg, refs_of(d.attributes)), inst.spec_attributes())
}

/// The kinds of failure that come from references that cannot be resolved.
pub open spec fn is_unresolved(e: RegistrationError) -> bool {
    e is BrokenReference || e is CircularReference || e is BlockedReference
}

/// Whether the identifier is that of a declaration that failed for unresolvable references.
pub open spec fn stalled(failed: Seq<(TypeDefinition, RegistrationError)>, id: u64) -> bool {
    exists|j: int| 0 <= j < failed.len() && #[trigger] failed[j].0.id == id && is_unresolved(failed[j].1)
}

/// Whether a reference is registered or names a declaration that failed for unresolvable
/// references.
pub open spec fn settled(
    reg: Seq<Arc<TypeDefinitionInstance>>,
    failed: Seq<(TypeDefinition, RegistrationError)>,
    r: u64,
) -> bool {
    has_id(reg, r) || stalled(failed, r)
}

/// Why a duplicate or an instantiation error is reported, against the registry before the batch
/// (`old`) and after it (`reg`).
pub open spec fn conflict_justified(
    old: Seq<Arc<TypeDefinitionInstance>>,
    reg: Seq<Arc<TypeDefinitionInstance>>,
    d: TypeDefinition,
    e: RegistrationError,
) -> bool {
    let refs = refs_of(d.attributes);
    match e {
        RegistrationError::DuplicateTypeDefinition { existing_name } => exists|k: int|
            0 <= k < reg.len() && #[trigger] reg[k].spec_id() == d.id && reg[k].spec_name()
                == existing_name,
        RegistrationError::DuplicateTypeDefinitionName { existing_id } => {
            &&& !has_id(old, d.id)
            &&& exists|k: int|
                0 <= k < reg.len() && #[trigger] reg[k].spec_id() == existing_id
                    && reg[k].spec_name()@ == d.name@
        },
        RegistrationError::InstantiationError(ie) => {
            let resolved = resolve(reg, refs);
            &&& !has_id(old, d.id)
            &&& !has_name(old, d.name@)
            &&& all_registered(reg, refs)
            &&& key_type_refused(d.attributes, resolved)
            &&& ie == (InstantiationError::InappropriateKeyType {
                key_type_id: resolved[0].spec_id(),
                key_type_name: resolved[0].spec_name(),
                key_type_str: ie->key_type_str,
            })
            &&& ie->key_type_str@ == type_text(resolved[0].spec_attributes())
        },
        _ => false,
    }
}

/// Whether failed entry `j` is a declaration on cycle `c`, at its place `k`, with its next
/// element among its references.
pub open spec fn cycle_step(
    failed: Seq<(TypeDefinition, RegistrationError)>,
    c: Seq<(u64, String)>,
    k: int,
    j: int,
) -> bool {
    &&& 0 <= j < failed.len()
    &&& failed[j].0.id == c[k].0
    &&& failed[j].0.name == c[k].1
    &&& failed[j].1 is CircularReference
    &&& failed[j].1->cycle@ == c
    &&& refs_of(failed[j].0.attributes).contains(c[k + 1].0)
}

proof fn lemma_pair_ids(c: Seq<u64>, pairs: Seq<(u64, String)>)
    requires
        c.len() == pairs.len(),
        c.len() >= 1,
        forall|a: int| 0 <= a < pairs.len() ==> (#[trigger] pairs[a]).0 == c[a],
        c.drop_last().no_duplicates(),
    ensures
        cycle_ids(pairs.drop_last()).no_duplicates(),
{
    assert(cycle_ids(pairs.drop_last()) =~= c.drop_last());
}

/// The identifiers along a cycle.
pub open spec fn cycle_ids(c: Seq<(u64, String)>) -> Seq<u64> {
    c.map_values(|e: (u64, String)| e.0)
}

/// Whether `c` is a simple closed cycle of failed declarations, each referring to the next.
pub open spec fn cycle_witnessed(failed: Seq<(TypeDefinition, RegistrationError)>, c: Seq<(u64, String)>) -> bool {
    &&& c.len() >= 2
    &&& c[0] == c[c.len() - 1]
    &&& cycle_ids(c.drop_last()).no_duplicates()
    &&& forall|k: int| 0 <= k < c.len() - 1 ==> #[trigger] has_cycle_step(failed, c, k)
}

/// Whether some failed entry is the declaration at place `k` of cycle `c`.
pub open spec fn has_cycle_step(failed: Seq<(TypeDefinition, RegistrationError)>, c: Seq<(u64, String)>, k: int) -> bool {
    exists|j: int| #[trigger] cycle_step(failed, c, k, j)
}

/// Why a failure for unresolvable references is reported: the declaration was stuck against the
/// final registry, and the reason fits its references.
pub open spec fn unresolved_justified(
    reg: Seq<Arc<TypeDefinitionInstance>>,
    failed: Seq<(TypeDefinition, RegistrationError)>,
    d: TypeDefinition,
    e: RegistrationError,
) -> bool {
    let refs = refs_of(d.attributes);
    &&& stuck(reg, d)
    &&& match e {
        RegistrationError::BrokenReference { referenced_id } => exists|t: int|
            0 <= t < refs.len() && #[trigger] refs[t] == referenced_id && !settled(
                reg,
                failed,
                referenced_id,
            ) && forall|t0: int| 0 <= t0 < t ==> settled(reg, failed, #[trigger] refs[t0]),
        RegistrationError::CircularReference { cycle } => {
            &&& forall|t: int| 0 <= t < refs.len() ==> settled(reg, failed, #[trigger] refs[t])
            &&& cycle_witnessed(failed, cycle@)
            &&& exists|m: int| 0 <= m < cycle@.len() && #[trigger] cycle@[m].0 == d.id
        },
        RegistrationError::BlockedReference => forall|t: int|
            0 <= t < refs.len() ==> settled(reg, failed, #[trigger] refs[t]),
        _ => false,
    }
}

/// Why the failure of `d` with `e` is reported.
pub open spec fn failure_justified(
    old: Seq<Arc<TypeDefinitionInstance>>,
    reg: Seq<Arc<TypeDefinitionInstance>>,
    failed: Seq<(TypeDefinition, RegistrationError)>,
    d: TypeDefinition,
    e: RegistrationError,
) -> bool {
    if is_unresolved(e) {
        unresolved_justified(reg, failed, d, e)
    } else {
        conflict_justified(old, reg, d, e)
    }
}

/// Whether failed entry `j` is blocked and no earlier blocked entry has its identifier.
pub open spec fn first_blocked(failed: Seq<(TypeDefinition, RegistrationError)>, j: int) -> bool {
    &&& 0 <= j < failed.len()
    &&& failed[j].1 is BlockedReference
    &&& forall|j0: int|
        0 <= j0 < j ==> !((#[trigger] failed[j0]).1 is BlockedReference && failed[j0].0.id
            == failed[j].0.id)
}

/// Whether `rank` strictly decreases along every reference from a blocked declaration (the
/// first of its identifier) to a blocked declaration.
pub open spec fn blocked_ranked_by(failed: Seq<(TypeDefinition, RegistrationError)>, rank: spec_fn(u64) -> nat) -> bool {
    forall|j1: int, j2: int|
        #[trigger] first_blocked(failed, j1) && 0 <= j2 < failed.len() && (#[trigger] failed[j2]).1 is BlockedReference
            && refs_of(failed[j1].0.attributes).contains(failed[j2].0.id) ==> rank(failed[j2].0.id)
            < rank(failed[j1].0.id)
}

/// Whether the blocked declarations do not refer to each other in a cycle.
pub open spec fn blocked_acyclic(failed: Seq<(TypeDefinition, RegistrationError)>) -> bool {
    exists|rank: spec_fn(u64) -> nat| #[trigger] blocked_ranked_by(failed, rank)
}

/// Whether `rank` strictly decreases along every reference from a pending entry (the first of
/// its identifier) to a pending entry.
pub open spec fn pending_ranked_by(p: Seq<(usize, TypeDefinition)>, rank: spec_fn(u64) -> nat) -> bool {
    forall|q1: int, q2: int|
        0 <= q1 < p.len() && 0 <= q2 < p.len() && (forall|q0: int| 0 <= q0 < q1 ==> (#[trigger] p[q0]).1.id != p[q1].1.id)
            && refs_of((#[trigger] p[q1]).1.attributes).contains((#[trigger] p[q2]).1.id) ==> rank(p[q2].1.id) < rank(p[q1].1.id)
}

/// The indices of a batch of `n` declarations.
pub open spec fn indices(n: nat) -> Seq<int> {
    Seq::new(n, |i: int| i)
}

/// The outcome of registering `batch` into a registry holding `old`, traced by the batch index
/// of each success (`si`) and of each failure (`fi`): together the indices are the batch's, each
/// once; each success was made from its declaration against the registry as it stood then; each
/// failure hands back its declaration with a justified reason.
pub open spec fn traced_outcome(
    old: Seq<Arc<TypeDefinitionInstance>>,
    batch: Seq<TypeDefinition>,
    succeeded: Seq<Arc<TypeDefinitionInstance>>,
    failed: Seq<(TypeDefinition, RegistrationError)>,
    si: Seq<int>,
    fi: Seq<int>,
) -> bool {
    let reg = old + succeeded;
    &&& si.len() == succeeded.len()
    &&& fi.len() == failed.len()
    &&& (si + fi).to_multiset() == indices(batch.len()).to_multiset()
    &&& forall|j: int|
        0 <= j < succeeded.len() ==> 0 <= #[trigger] si[j] < batch.len() && registered_from(
            old + succeeded.take(j),
            batch[si[j]],
            succeeded[j],
        )
    &&& forall|j: int|
        0 <= j < failed.len() ==> 0 <= #[trigger] fi[j] < batch.len() && failed[j].0 == batch[fi[j]]
            && failure_justified(old, reg, failed, failed[j].0, failed[j].1)
    &&& blocked_acyclic(failed)
}

/// The outcome of registering `batch` into a registry holding `old`.
pub open spec fn registration_outcome(
    old: Seq<Arc<TypeDefinitionInstance>>,
    batch: Seq<TypeDefinition>,
    succeeded: Seq<Arc<TypeDefinitionInstance>>,
    failed: Seq<(TypeDefinition, RegistrationError)>,
) -> bool {
    exists|si: Seq<int>, fi: Seq<int>| #[trigger] traced_outcome(old, batch, succeeded, failed, si, fi)
}

/// Shares an instance.
///
/// Relies on `Arc::clone`: the result points to the same instance.
#[verifier::external_body]
fn share(a: &Arc<TypeDefinitionInstance>) -> (r: Arc<TypeDefinitionInstance>)
    ensures
        r == *a,
{
    Arc::clone(a)
}

/// The result of one attempt to register a declaration.
enum Attempt {
    Registered(Arc<TypeDefinitionInstance>),
    Failed(TypeDefinition, RegistrationError),
    Postponed(TypeDefinition),
}

proof fn lemma_lookup_found(reg: Seq<Arc<TypeDefinitionInstance>>, id: u64, k: int)
    requires
        unique_keys(reg),
        0 <= k < reg.len(),
        reg[k].spec_id() == id,
    ensures
        lookup(reg, id) == reg[k],
{
    let c = choose|c: int| 0 <= c < reg.len() && #[trigger] reg[c].spec_id() == id;
    if c != k {
        assert(reg[c].spec_id() != reg[k].spec_id());
    }
}

/// Lookups of registered identifiers are kept when the registry grows.
proof fn lemma_lookup_extends(reg: Seq<Arc<TypeDefinitionInstance>>, more: Seq<Arc<TypeDefinitionInstance>>, id: u64)
    requires
        unique_keys(reg + more),
        has_id(reg, id),
    ensures
        lookup(reg + more, id) == lookup(reg, id),
        has_id(reg + more, id),
{
    let k = choose|k: int| 0 <= k < reg.len() && #[trigger] reg[k].spec_id() == id;
    assert((reg + more)[k] == reg[k]);
    lemma_lookup_found(reg + more, id, k);
    assert(unique_keys(reg)) by {
        assert forall|a: int, b: int|
            0 <= a < reg.len() && 0 <= b < reg.len() && a != b implies #[trigger] reg[a].spec_id()
                != #[trigger] reg[b].spec_id() && reg[a].spec_name()@ != reg[b].spec_name()@ by {
            assert((reg + more)[a] == reg[a]);
            assert((reg + more)[b] == reg[b]);
        }
    }
    lemma_lookup_found(reg, id, k);
}

proof fn lemma_resolve_extends(reg: Seq<Arc<TypeDefinitionInstance>>, more: Seq<Arc<TypeDefinitionInstance>>, refs: Seq<u64>)
    requires
        unique_keys(reg + more),
        all_registered(reg, refs),
    ensures
        resolve(reg + more, refs) == resolve(reg, refs),
        all_registered(reg + more, refs),
{
    assert forall|k: int| 0 <= k < refs.len() implies has_id(reg + more, #[trigger] refs[k])
        && lookup(reg + more, refs[k]) == lookup(reg, refs[k]) by {
        lemma_lookup_extends(reg, more, refs[k]);
    }
    assert(resolve(reg + more, refs) =~= resolve(reg, refs));
}

proof fn lemma_has_id_extends(reg: Seq<Arc<TypeDefinitionInstance>>, more: Seq<Arc<TypeDefinitionInstance>>, id: u64)
    ensures
        has_id(reg, id) ==> has_id(reg + more, id),
        has_id(reg + more, id) && !has_id(more, id) ==> has_id(reg, id),
{
    if has_id(reg, id) {
        let k = choose|k: int| 0 <= k < reg.len() && #[trigger] reg[k].spec_id() == id;
        assert((reg + more)[k] == reg[k]);
    }
    if has_id(reg + more, id) && !has_id(more, id) {
        let k = choose|k: int| 0 <= k < (reg + more).len() && #[trigger] (reg + more)[k].spec_id() == id;
        if k >= reg.len() {
            assert(more[k - reg.len()] == (reg + more)[k]);
        }
    }
}

proof fn lemma_has_name_extends(reg: Seq<Arc<TypeDefinitionInstance>>, more: Seq<Arc<TypeDefinitionInstance>>, name: Seq<char>)
    ensures
        has_name(reg, name) ==> has_name(reg + more, name),
        has_name(reg + more, name) && !has_name(more, name) ==> has_name(reg, name),
{
    if has_name(reg, name) {
        let k = choose|k: int| 0 <= k < reg.len() && #[trigger] reg[k].spec_name()@ == name;
        assert((reg + more)[k] == reg[k]);
    }
    if has_name(reg + more, name) && !has_name(more, name) {
        let k = choose|k: int| 0 <= k < (reg + more).len() && #[trigger] (reg + more)[k].spec_name()@ == name;
        if k >= reg.len() {
            assert(more[k - reg.len()] == (reg + more)[k]);
        }
    }
}

/// A duplicate or instantiation failure stays justified as the registry grows.
proof fn lemma_conflict_extends(
    old: Seq<Arc<TypeDefinitionInstance>>,
    reg: Seq<Arc<TypeDefinitionInstance>>,
    more: Seq<Arc<TypeDefinitionInstance>>,
    d: TypeDefinition,
    e: RegistrationError,
)
    requires
        unique_keys(reg + more),
        conflict_justified(old, reg, d, e),
    ensures
        conflict_justified(old, reg + more, d, e),
{
    match e {
        RegistrationError::DuplicateTypeDefinition { existing_name } => {
            let k = choose|k: int|
                0 <= k < reg.len() && #[trigger] reg[k].spec_id() == d.id && reg[k].spec_name()
                    == existing_name;
            assert((reg + more)[k] == reg[k]);
        },
        RegistrationError::DuplicateTypeDefinitionName { existing_id } => {
            let k = choose|k: int|
                0 <= k < reg.len() && #[trigger] reg[k].spec_id() == existing_id
                    && reg[k].spec_name()@ == d.name@;
            assert((reg + more)[k] == reg[k]);
        },
        RegistrationError::InstantiationError(_) => {
            lemma_resolve_extends(reg, more, refs_of(d.attributes));
        },
        _ => {},
    }
}

/// The batch indices of pending entries.
pub open spec fn idx_of(p: Seq<(usize, TypeDefinition)>) -> Seq<int> {
    p.map_values(|e: (usize, TypeDefinition)| e.0 as int)
}

/// Whether every pending entry holds the declaration at its batch index.
pub open spec fn entries_of(batch: Seq<TypeDefinition>, p: Seq<(usize, TypeDefinition)>) -> bool {
    forall|k: int| 0 <= k < p.len() ==> (#[trigger] p[k]).0 < batch.len() && p[k].1 == batch[p[k].0 as int]
}

/// Whether a reference is registered or is among the identifiers `ids`.
pub open spec fn settled_in(reg: Seq<Arc<TypeDefinitionInstance>>, ids: Seq<u64>, r: u64) -> bool {
    has_id(reg, r) || ids.contains(r)
}

/// `unresolved_justified`, with the identifiers of the stuck declarations given as `ids`.
pub open spec fn unresolved_pre(
    reg: Seq<Arc<TypeDefinitionInstance>>,
    ids: Seq<u64>,
    failed: Seq<(TypeDefinition, RegistrationError)>,
    d: TypeDefinition,
    e: RegistrationError,
) -> bool {
    let refs = refs_of(d.attributes);
    &&& stuck(reg, d)
    &&& match e {
        RegistrationError::BrokenReference { referenced_id } => exists|t: int|
            0 <= t < refs.len() && #[trigger] refs[t] == referenced_id && !settled_in(
                reg,
                ids,
                referenced_id,
            ) && forall|t0: int| 0 <= t0 < t ==> settled_in(reg, ids, #[trigger] refs[t0]),
        RegistrationError::CircularReference { cycle } => {
            &&& forall|t: int| 0 <= t < refs.len() ==> settled_in(reg, ids, #[trigger] refs[t])
            &&& cycle_witnessed(failed, cycle@)
            &&& exists|m: int| 0 <= m < cycle@.len() && #[trigger] cycle@[m].0 == d.id
        },
        RegistrationError::BlockedReference => forall|t: int|
            0 <= t < refs.len() ==> settled_in(reg, ids, #[trigger] refs[t]),
        _ => false,
    }
}

/// Whether a stuck declaration has every reference registered or among `ids`.
pub open spec fn all_settled_in(reg: Seq<Arc<TypeDefinitionInstance>>, ids: Seq<u64>, d: TypeDefinition) -> bool {
    let refs = refs_of(d.attributes);
    &&& stuck(reg, d)
    &&& forall|t: int| 0 <= t < refs.len() ==> settled_in(reg, ids, #[trigger] refs[t])
}

proof fn lemma_move_head<A>(a: Seq<A>, c: Seq<A>)
    requires
        c.len() > 0,
    ensures
        a.push(c[0]).to_multiset().add(c.drop_first().to_multiset()) =~= a.to_multiset().add(
            c.to_multiset(),
        ),
        c.drop_first().push(c[0]).to_multiset() =~= c.to_multiset(),
{
    broadcast use vstd::multiset::group_multiset_axioms;

    assert(c.drop_first() =~= c.remove(0));
}

proof fn lemma_idx_remove(p: Seq<(usize, TypeDefinition)>)
    requires
        p.len() > 0,
    ensures
        idx_of(p.remove(0)) =~= idx_of(p).drop_first(),
        idx_of(p)[0] == p[0].0 as int,
{
}

proof fn lemma_idx_push(p: Seq<(usize, TypeDefinition)>, e: (usize, TypeDefinition))
    ensures
        idx_of(p.push(e)) =~= idx_of(p).push(e.0 as int),
{
}

proof fn lemma_witness_extends(
    failed: Seq<(TypeDefinition, RegistrationError)>,
    more: Seq<(TypeDefinition, RegistrationError)>,
    c: Seq<(u64, String)>,
)
    requires
        cycle_witnessed(failed, c),
    ensures
        cycle_witnessed(failed + more, c),
{
    assert forall|k: int| 0 <= k < c.len() - 1 implies #[trigger] has_cycle_step(failed + more, c, k) by {
        assert(has_cycle_step(failed, c, k));
        let j = choose|j: int| #[trigger] cycle_step(failed, c, k, j);
        assert((failed + more)[j] == failed[j]);
        assert(cycle_step(failed + more, c, k, j));
    }
}

proof fn lemma_pre_extends(
    reg: Seq<Arc<TypeDefinitionInstance>>,
    ids: Seq<u64>,
    failed: Seq<(TypeDefinition, RegistrationError)>,
    more: Seq<(TypeDefinition, RegistrationError)>,
    d: TypeDefinition,
    e: RegistrationError,
)
    requires
        unresolved_pre(reg, ids, failed, d, e),
    ensures
        unresolved_pre(reg, ids, failed + more, d, e),
{
    if let RegistrationError::CircularReference { cycle } = e {
        lemma_witness_extends(failed, more, cycle@);
    }
}

proof fn lemma_pre_final(
    reg: Seq<Arc<TypeDefinitionInstance>>,
    ids: Seq<u64>,
    failed: Seq<(TypeDefinition, RegistrationError)>,
    d: TypeDefinition,
    e: RegistrationError,
)
    requires
        unresolved_pre(reg, ids, failed, d, e),
        forall|x: u64| ids.contains(x) <==> #[trigger] stalled(failed, x),
    ensures
        unresolved_justified(reg, failed, d, e),
{
    let refs = refs_of(d.attributes);
    assert forall|r: u64| settled_in(reg, ids, r) <==> #[trigger] settled(reg, failed, r) by {
        assert(ids.contains(r) <==> stalled(failed, r));
    }
}

/// A copy of a cycle.
fn copy_cycle(c: &Vec<(u64, String)>) -> (r: Vec<(u64, String)>)
    ensures
        r@ == c@,
{
    let mut out: Vec<(u64, String)> = Vec::new();
    let mut k: usize = 0;
    while k < c.len()
        invariant
            0 <= k <= c@.len(),
            out@ == c@.take(k as int),
        decreases c@.len() - k,
    {
        out.push((c[k].0, c[k].1.clone()));
        assert(c@.take(k + 1) == c@.take(k as int).push(c@[k as int]));
        k += 1;
    }
    assert(c@.take(k as int) =~= c@);
    out
}

/// Whether a list holds an identifier.
fn holds(ids: &Vec<u64>, x: u64) -> (r: bool)
    ensures
        r == ids@.contains(x),
{
    let mut k: usize = 0;
    while k < ids.len()
        invariant
            0 <= k <= ids@.len(),
            forall|j: int| 0 <= j < k ==> ids@[j] != x,
        decreases ids@.len() - k,
    {
        if ids[k] == x {
            assert(ids@[k as int] == x);
            return true;
        }
        k += 1;
    }
    false
}

/// The references in ascending order without repeats, as a dependency list.
fn dependency_list(refs: Vec<u64>) -> (r: Vec<u64>)
    requires
        refs@.len() <= 2,
    ensures
        forall|x: u64| r@.contains(x) <==> refs@.contains(x),
{
    if refs.len() == 2 {
        let (a, b) = (refs[0], refs[1]);
        if a == b {
            let r = vec![a];
            assert(r@[0] == a);
            return r;
        } else if b < a {
            let r = vec![b, a];
            assert(r@[0] == b && r@[1] == a);
            return r;
        }
    }
    refs
}

/// The dependency list of each pending declaration: its identifier and its references.
fn dependency_lists(rest: &Vec<(usize, TypeDefinition)>) -> (deps: Vec<(u64, Vec<u64>)>)
    ensures
        deps@.len() == rest@.len(),
        forall|i: int| 0 <= i < rest@.len() ==> (#[trigger] deps@[i]).0 == rest@[i].1.id,
        forall|i: int, x: u64|
            0 <= i < rest@.len() ==> (#[trigger] deps@[i].1@.contains(x) <==> refs_of(
                rest@[i].1.attributes,
            ).contains(x)),
{
    let mut deps: Vec<(u64, Vec<u64>)> = Vec::new();
    let mut k: usize = 0;
    while k < rest.len()
        invariant
            0 <= k <= rest@.len(),
            deps@.len() == k,
            forall|i: int| 0 <= i < k ==> (#[trigger] deps@[i]).0 == rest@[i].1.id,
            forall|i: int, x: u64|
                0 <= i < k ==> (#[trigger] deps@[i].1@.contains(x) <==> refs_of(
                    rest@[i].1.attributes,
                ).contains(x)),
        decreases rest@.len() - k,
    {
        let refs = rest[k].1.attributes.external_identifier_references();
        let ghost before = deps@;
        deps.push((rest[k].1.id, dependency_list(refs)));
        assert forall|i: int, x: u64|
            0 <= i < k + 1 implies (#[trigger] deps@[i].1@.contains(x) <==> refs_of(
                rest@[i].1.attributes,
            ).contains(x)) by {
            if i < k {
                assert(deps@[i] == before[i]);
            }
        }
        k += 1;
    }
    deps
}

/// The failures appended by classification are justified against the final list of failures,
/// and the blocked ones do not refer to each other in a cycle.
proof fn lemma_classification_closes(
    reg: Seq<Arc<TypeDefinitionInstance>>,
    batch: Seq<TypeDefinition>,
    all: Seq<(usize, TypeDefinition)>,
    sids: Seq<u64>,
    fin: Seq<(TypeDefinition, RegistrationError)>,
    f0: int,
    fi: Seq<int>,
    blocked: Seq<(usize, TypeDefinition)>,
    fb0: int,
)
    requires
        entries_of(batch, all),
        sids == all.map_values(|e: (usize, TypeDefinition)| e.1.id),
        0 <= f0 <= fb0 <= fin.len(),
        fin.len() == f0 + fi.len(),
        fi.to_multiset() == idx_of(all).to_multiset(),
        forall|j: int| 0 <= j < fi.len() ==> 0 <= #[trigger] fi[j] < batch.len() && fin[f0 + j].0 == batch[fi[j]],
        forall|j: int| f0 <= j < fin.len() ==> is_unresolved(#[trigger] fin[j].1) && unresolved_pre(reg, sids, fin, fin[j].0, fin[j].1),
        forall|j: int| 0 <= j < f0 ==> !is_unresolved(#[trigger] fin[j].1),
        blocked.len() == fin.len() - fb0,
        forall|j: int| 0 <= j < fb0 ==> !((#[trigger] fin[j]).1 is BlockedReference),
        forall|q: int| 0 <= q < blocked.len() ==> fin[fb0 + q].0 == (#[trigger] blocked[q]).1 && fin[fb0 + q].1 is BlockedReference,
        exists|rank: spec_fn(u64) -> nat| #[trigger] pending_ranked_by(blocked, rank),
    ensures
        forall|j: int| f0 <= j < fin.len() ==> unresolved_justified(reg, fin, fin[j].0, #[trigger] fin[j].1),
        blocked_acyclic(fin),
{
    broadcast use vstd::multiset::group_multiset_axioms;

    assert forall|x: u64| sids.contains(x) <==> #[trigger] stalled(fin, x) by {
        if sids.contains(x) {
            let q = choose|q: int| 0 <= q < sids.len() && sids[q] == x;
            assert(idx_of(all)[q] == all[q].0 as int);
            assert(idx_of(all).contains(all[q].0 as int));
            assert(idx_of(all).to_multiset().count(all[q].0 as int) > 0);
            assert(fi.to_multiset().count(all[q].0 as int) > 0);
            assert(fi.contains(all[q].0 as int));
            let j = choose|j: int| 0 <= j < fi.len() && fi[j] == all[q].0 as int;
            assert(fin[f0 + j].0 == batch[fi[j]]);
            assert(all[q].1 == batch[all[q].0 as int]);
            assert(fin[f0 + j].0.id == x);
            assert(is_unresolved(fin[f0 + j].1));
        }
        if stalled(fin, x) {
            let j = choose|j: int| 0 <= j < fin.len() && #[trigger] fin[j].0.id == x && is_unresolved(fin[j].1);
            assert(j >= f0);
            let jj = j - f0;
            assert(fi.contains(fi[jj]));
            assert(fi.to_multiset().count(fi[jj]) > 0);
            assert(idx_of(all).to_multiset().count(fi[jj]) > 0);
            assert(idx_of(all).contains(fi[jj]));
            let q = choose|q: int| 0 <= q < idx_of(all).len() && idx_of(all)[q] == fi[jj];
            assert(all[q].1 == batch[all[q].0 as int]);
            assert(sids[q] == x);
        }
    }
    assert forall|j: int| f0 <= j < fin.len() implies unresolved_justified(reg, fin, fin[j].0, #[trigger] fin[j].1) by {
        lemma_pre_final(reg, sids, fin, fin[j].0, fin[j].1);
    }
    lemma_blocked_ranked(fin, blocked, fb0);
}

/// The blocked entries, appended last in the order of the pending entries, inherit their ranking.
proof fn lemma_blocked_ranked(
    fin: Seq<(TypeDefinition, RegistrationError)>,
    blocked: Seq<(usize, TypeDefinition)>,
    fb0: int,
)
    requires
        0 <= fb0 <= fin.len(),
        blocked.len() == fin.len() - fb0,
        forall|j: int| 0 <= j < fb0 ==> !((#[trigger] fin[j]).1 is BlockedReference),
        forall|q: int| 0 <= q < blocked.len() ==> fin[fb0 + q].0 == (#[trigger] blocked[q]).1 && fin[fb0 + q].1 is BlockedReference,
        exists|rank: spec_fn(u64) -> nat| #[trigger] pending_ranked_by(blocked, rank),
    ensures
        blocked_acyclic(fin),
{
    let rank = choose|rank: spec_fn(u64) -> nat| #[trigger] pending_ranked_by(blocked, rank);
    assert forall|j1: int, j2: int|
        #[trigger] first_blocked(fin, j1) && 0 <= j2 < fin.len() && (#[trigger] fin[j2]).1 is BlockedReference
            && refs_of(fin[j1].0.attributes).contains(fin[j2].0.id) implies rank(fin[j2].0.id)
            < rank(fin[j1].0.id) by {
        lemma_blocked_pair(fin, blocked, fb0, rank, j1, j2);
    }
    assert(blocked_ranked_by(fin, rank));
}

#[verifier::rlimit(100)]
#[verifier::spinoff_prover]
proof fn lemma_blocked_pair(
    fin: Seq<(TypeDefinition, RegistrationError)>,
    blocked: Seq<(usize, TypeDefinition)>,
    fb0: int,
    rank: spec_fn(u64) -> nat,
    j1: int,
    j2: int,
)
    requires
        0 <= fb0 <= fin.len(),
        blocked.len() == fin.len() - fb0,
        forall|j: int| 0 <= j < fb0 ==> !((#[trigger] fin[j]).1 is BlockedReference),
        forall|q: int| 0 <= q < blocked.len() ==> fin[fb0 + q].0 == (#[trigger] blocked[q]).1 && fin[fb0 + q].1 is BlockedReference,
        pending_ranked_by(blocked, rank),
        first_blocked(fin, j1),
        0 <= j2 < fin.len(),
        fin[j2].1 is BlockedReference,
        refs_of(fin[j1].0.attributes).contains(fin[j2].0.id),
    ensures
        rank(fin[j2].0.id) < rank(fin[j1].0.id),
{
    if j1 < fb0 {
        assert(!(fin[j1].1 is BlockedReference));
    }
    if j2 < fb0 {
        assert(!(fin[j2].1 is BlockedReference));
    }
    let q1 = j1 - fb0;
    let q2 = j2 - fb0;
    let e1 = blocked[q1];
    let e2 = blocked[q2];
    assert(fin[j1].0 == e1.1);
    assert(fin[j2].0 == e2.1);
    assert forall|q0: int| 0 <= q0 < q1 implies (#[trigger] blocked[q0]).1.id != e1.1.id by {
        assert(fin[fb0 + q0].0 == blocked[q0].1);
        assert(!((fin[fb0 + q0]).1 is BlockedReference && fin[fb0 + q0].0.id == fin[j1].0.id));
    }
}

/// Orders the batch by ascending number of references, keeping the batch order otherwise, and
/// pairs each declaration with its batch index.
fn order_by_reference_count(batch: Vec<TypeDefinition>) -> (r: Vec<(usize, TypeDefinition)>)
    ensures
        entries_of(batch@, r@),
        idx_of(r@).to_multiset() == indices(batch@.len()).to_multiset(),
{
    let ghost all = batch@;
    let n = batch.len();
    let mut batch = batch;
    let mut none: Vec<(usize, TypeDefinition)> = Vec::new();
    let mut one: Vec<(usize, TypeDefinition)> = Vec::new();
    let mut two: Vec<(usize, TypeDefinition)> = Vec::new();
    let mut i: usize = 0;
    while batch.len() > 0
        invariant
            n == all.len(),
            i + batch@.len() == n,
            batch@ == all.subrange(i as int, n as int),
            entries_of(all, none@),
            entries_of(all, one@),
            entries_of(all, two@),
            idx_of(none@).to_multiset().add(idx_of(one@).to_multiset()).add(
                idx_of(two@).to_multiset(),
            ) == indices(i as nat).to_multiset(),
        decreases batch.len(),
    {
        let td = batch.remove(0);
        assert(td == all[i as int]);
        let e = (i, td);
        let c = e.1.attributes.external_identifier_references().len();
        proof {
            assert(indices((i + 1) as nat) =~= indices(i as nat).push(i as int));
        }
        if c == 0 {
            proof { lemma_idx_push(none@, e); }
            none.push(e);
        } else if c == 1 {
            proof { lemma_idx_push(one@, e); }
            one.push(e);
        } else {
            proof { lemma_idx_push(two@, e); }
            two.push(e);
        }
        proof {
            broadcast use vstd::multiset::group_multiset_axioms;
        }
        i += 1;
    }
    let ghost (a, b, c) = (none@, one@, two@);
    none.append(&mut one);
    none.append(&mut two);
    proof {
        assert(none@ == a + b + c);
        assert(idx_of(a + b + c) =~= idx_of(a) + idx_of(b) + idx_of(c));
        vstd::seq_lib::lemma_multiset_commutative(idx_of(a) + idx_of(b), idx_of(c));
        vstd::seq_lib::lemma_multiset_commutative(idx_of(a), idx_of(b));
        assert forall|k: int| 0 <= k < none@.len() implies (#[trigger] none@[k]).0 < all.len()
            && none@[k].1 == all[none@[k].0 as int] by {
            if k < a.len() {
                assert(none@[k] == a[k]);
            } else if k < a.len() + b.len() {
                assert(none@[k] == b[k - a.len()]);
            } else {
                assert(none@[k] == c[k - a.len() - b.len()]);
            }
        }
    }
    none
}

/// A duplicate or instantiation failure justified against a larger earlier registry is
/// justified against any prefix of it.
proof fn lemma_conflict_narrow(
    old: Seq<Arc<TypeDefinitionInstance>>,
    more: Seq<Arc<TypeDefinitionInstance>>,
    reg: Seq<Arc<TypeDefinitionInstance>>,
    d: TypeDefinition,
    e: RegistrationError,
)
    requires
        conflict_justified(old + more, reg, d, e),
    ensures
        conflict_justified(old, reg, d, e),
{
    lemma_has_id_extends(old, more, d.id);
    lemma_has_name_extends(old, more, d.name@);
}

impl Store {
    /// The registered instances, in the order they were registered.
    pub closed spec fn instances(&self) -> Seq<Arc<TypeDefinitionInstance>> {
        self.types@
    }

    /// Whether identifiers and names are unique.
    pub open spec fn wf(&self) -> bool {
        unique_keys(self.instances())
    }

    /// Creates an empty registry.
    pub fn new() -> (r: Self)
        ensures
            r.wf(),
            r.instances().len() == 0,
    {
        Store { types: Vec::new() }
    }

    /// Finds the place of the instance with an identifier.
    fn position_of_id(&self, id: u64) -> (r: Option<usize>)
        ensures
            match r {
                Some(k) => k < self.types@.len() && self.types@[k as int].spec_id() == id,
                None => !has_id(self.types@, id),
            },
    {
        let mut k: usize = 0;
        while k < self.types.len()
            invariant
                0 <= k <= self.types@.len(),
                forall|j: int| 0 <= j < k ==> #[trigger] self.types@[j].spec_id() != id,
            decreases self.types@.len() - k,
        {
            if self.types[k].id() == id {
                return Some(k);
            }
            k += 1;
        }
        None
    }

    /// Finds the place of the instance with a name.
    fn position_of_name(&self, name: &String) -> (r: Option<usize>)
        ensures
            match r {
                Some(k) => k < self.types@.len() && self.types@[k as int].spec_name()@ == name@,
                None => !has_name(self.types@, name@),
            },
    {
        let mut k: usize = 0;
        while k < self.types.len()
            invariant
                0 <= k <= self.types@.len(),
                forall|j: int| 0 <= j < k ==> #[trigger] self.types@[j].spec_name()@ != name@,
            decreases self.types@.len() - k,
        {
            if *self.types[k].name() == *name {
                return Some(k);
            }
            k += 1;
        }
        None
    }

    /// The instance with an identifier.
    pub fn get_by_id(&self, id: u64) -> (r: Option<Arc<TypeDefinitionInstance>>)
        requires
            self.wf(),
        ensures
            r is Some <==> has_id(self.instances(), id),
            r matches Some(i) ==> i == lookup(self.instances(), id),
    {
        match self.position_of_id(id) {
            Some(k) => {
                proof {
                    lemma_lookup_found(self.types@, id, k as int);
                }
                Some(share(&self.types[k]))
            },
            None => None,
        }
    }

    /// The instance with a name.
    pub fn get_by_name(&self, name: &String) -> (r: Option<Arc<TypeDefinitionInstance>>)
        ensures
            r is Some <==> has_name(self.instances(), name@),
            r matches Some(i) ==> i.spec_name()@ == name@ && exists|k: int|
                0 <= k < self.instances().len() && #[trigger] self.instances()[k] == i,
    {
        match self.position_of_name(name) {
            Some(k) => {
                let i = share(&self.types[k]);
                assert(self.instances()[k as int] == i);
                Some(i)
            },
            None => None,
        }
    }

    /// Resolves references against the registry, or reports that one is missing.
    fn resolve_refs(&self, refs: &Vec<u64>) -> (r: Option<Vec<Arc<TypeDefinitionInstance>>>)
        requires
            self.wf(),
        ensures
            r is Some <==> all_registered(self.types@, refs@),
            r matches Some(v) ==> v@ == resolve(self.types@, refs@),
    {
        let mut out: Vec<Arc<TypeDefinitionInstance>> = Vec::new();
        let mut t: usize = 0;
        while t < refs.len()
            invariant
                self.wf(),
                0 <= t <= refs@.len(),
                out@ == resolve(self.types@, refs@.take(t as int)),
                forall|k: int| 0 <= k < t ==> has_id(self.types@, #[trigger] refs@[k]),
            decreases refs@.len() - t,
        {
            match self.position_of_id(refs[t]) {
                Some(k) => {
                    proof {
                        lemma_lookup_found(self.types@, refs@[t as int], k as int);
                    }
                    out.push(share(&self.types[k]));
                    assert(refs@.take(t + 1) == refs@.take(t as int).push(refs@[t as int]));
                    assert(out@ =~= resolve(self.types@, refs@.take(t + 1)));
                },
                None => {
                    return None;
                },
            }
            t += 1;
        }
        assert(refs@.take(t as int) =~= refs@);
        Some(out)
    }

    /// One attempt at a declaration: a duplicate identifier or name fails it; a missing
    /// reference postpones it; otherwise it is instantiated and registered, or fails
    /// instantiation.
    fn attempt(&mut self, td: TypeDefinition) -> (r: Attempt)
        requires
            old(self).wf(),
        ensures
            final(self).wf(),
            match r {
                Attempt::Registered(inst) => final(self).types@ == old(self).types@.push(inst)
                    && registered_from(old(self).types@, td, inst),
                Attempt::Failed(d, e) => final(self).types@ == old(self).types@ && d == td
                    && !is_unresolved(e) && conflict_justified(
                    old(self).types@,
                    old(self).types@,
                    d,
                    e,
                ) && (!(e is DuplicateTypeDefinition) ==> !has_id(old(self).types@, d.id)) && (
                !(e is DuplicateTypeDefinition) && !(e is DuplicateTypeDefinitionName)
                    ==> !has_name(old(self).types@, d.name@)),
                Attempt::Postponed(d) => final(self).types@ == old(self).types@ && d == td && stuck(
                    old(self).types@,
                    d,
                ),
            },
    {
        if let Some(k) = self.position_of_id(td.id) {
            let existing_name = self.types[k].name().clone();
            return Attempt::Failed(td, RegistrationError::DuplicateTypeDefinition { existing_name });
        }
        if let Some(k) = self.position_of_name(&td.name) {
            let existing_id = self.types[k].id();
            return Attempt::Failed(td, RegistrationError::DuplicateTypeDefinitionName { existing_id });
        }
        let refs = td.attributes.external_identifier_references();
        let resolved = match self.resolve_refs(&refs) {
            Some(v) => v,
            None => {
                return Attempt::Postponed(td);
            },
        };
        let TypeDefinition { id, name, description, attributes } = td;
        match attributes.instantiate(resolved) {
            Ok(inst_attributes) => {
                let inst = Arc::new(TypeDefinitionInstance::new(id, name, inst_attributes));
                let ghost before = self.types@;
                self.types.push(share(&inst));
                proof {
                    assert forall|a: int, b: int|
                        0 <= a < self.types@.len() && 0 <= b < self.types@.len() && a != b implies #[trigger] self.types@[a].spec_id()
                            != #[trigger] self.types@[b].spec_id() && self.types@[a].spec_name()@ != self.types@[b].spec_name()@ by {
                        if a == before.len() {
                            assert(before[b].spec_id() != id);
                            assert(before[b].spec_name()@ != name@);
                        } else if b == before.len() {
                            assert(before[a].spec_id() != id);
                            assert(before[a].spec_name()@ != name@);
                        } else {
                            assert(self.types@[a] == before[a]);
                            assert(self.types@[b] == before[b]);
                            assert(before[a].spec_id() != before[b].spec_id());
                        }
                    }
                }
                Attempt::Registered(inst)
            },
            Err((attributes, e)) => {
                let td = TypeDefinition { id, name, description, attributes };
                Attempt::Failed(td, RegistrationError::InstantiationError(e))
            },
        }
    }
}

impl Store {
    /// Classifies declarations that made no progress in a full round: those with a reference to
    /// an identifier neither registered nor among them are broken; then cycles are extracted one
    /// at a time, each member failing with the cycle; what is left is blocked.
    #[verifier::rlimit(100)]
    #[verifier::spinoff_prover]
    fn classify_stuck(
        &self,
        stuck_entries: Vec<(usize, TypeDefinition)>,
        failed: &mut Vec<(TypeDefinition, RegistrationError)>,
        Ghost(batch): Ghost<Seq<TypeDefinition>>,
    ) -> (fi: Ghost<Seq<int>>)
        requires
            self.wf(),
            entries_of(batch, stuck_entries@),
            forall|k: int|
                0 <= k < stuck_entries@.len() ==> stuck(self.types@, #[trigger] stuck_entries@[k].1),
            forall|j: int| 0 <= j < old(failed)@.len() ==> !is_unresolved(#[trigger] old(failed)@[j].1),
        ensures
            final(failed)@.len() == old(failed)@.len() + fi@.len(),
            final(failed)@.subrange(0, old(failed)@.len() as int) == old(failed)@,
            fi@.to_multiset() == idx_of(stuck_entries@).to_multiset(),
            forall|j: int|
                0 <= j < fi@.len() ==> 0 <= #[trigger] fi@[j] < batch.len()
                    && final(failed)@[old(failed)@.len() + j].0 == batch[fi@[j]],
            forall|j: int|
                old(failed)@.len() <= j < final(failed)@.len() ==> is_unresolved(
                    #[trigger] final(failed)@[j].1,
                ) && unresolved_justified(
                    self.types@,
                    final(failed)@,
                    final(failed)@[j].0,
                    final(failed)@[j].1,
                ),
            blocked_acyclic(final(failed)@),
    {
        let ghost f0 = failed@.len();
        let mut ids: Vec<u64> = Vec::new();
        let mut k: usize = 0;
        while k < stuck_entries.len()
            invariant
                0 <= k <= stuck_entries@.len(),
                ids@ == stuck_entries@.take(k as int).map_values(|e: (usize, TypeDefinition)| e.1.id),
            decreases stuck_entries@.len() - k,
        {
            ids.push(stuck_entries[k].1.id);
            assert(stuck_entries@.take(k + 1) == stuck_entries@.take(k as int).push(stuck_entries@[k as int]));
            k += 1;
        }
        assert(stuck_entries@.take(k as int) =~= stuck_entries@);
        let ghost sids = ids@;
        let ghost all = stuck_entries@;
        // Broken references.
        let mut queue = stuck_entries;
        let mut rest: Vec<(usize, TypeDefinition)> = Vec::new();
        let ghost mut fi: Seq<int> = Seq::empty();
        while queue.len() > 0
            invariant
                self.wf(),
                ids@ == sids,
                sids == all.map_values(|e: (usize, TypeDefinition)| e.1.id),
                entries_of(batch, queue@),
                entries_of(batch, rest@),
                forall|q: int| 0 <= q < queue@.len() ==> stuck(self.types@, #[trigger] queue@[q].1),
                forall|q: int| 0 <= q < rest@.len() ==> all_settled_in(self.types@, sids, #[trigger] rest@[q].1),
                failed@.len() == f0 + fi.len(),
                failed@.subrange(0, f0 as int) == old(failed)@,
                fi.to_multiset().add(idx_of(rest@).to_multiset()).add(idx_of(queue@).to_multiset())
                    == idx_of(all).to_multiset(),
                forall|j: int|
                    0 <= j < fi.len() ==> 0 <= #[trigger] fi[j] < batch.len() && failed@[f0 + j].0
                        == batch[fi[j]],
                forall|j: int| f0 <= j < failed@.len() ==> is_unresolved(#[trigger] failed@[j].1)
                    && unresolved_pre(self.types@, sids, failed@, failed@[j].0, failed@[j].1)
                    && !(failed@[j].1 is BlockedReference),
                forall|j: int| 0 <= j < f0 ==> !is_unresolved(#[trigger] failed@[j].1),
            decreases queue.len(),
        {
            proof {
                lemma_idx_remove(queue@);
            }
            let ghost q0 = queue@;
            let (idx, td) = queue.remove(0);
            assert(q0[0] == (idx, td));
            let refs = td.attributes.external_identifier_references();
            let mut t: usize = 0;
            let mut missing: Option<u64> = None;
            while t < refs.len() && missing.is_none()
                invariant
                    self.wf(),
                    0 <= t <= refs@.len(),
                    refs@ == refs_of(td.attributes),
                    ids@ == sids,
                    match missing {
                        Some(r) => t < refs@.len() && refs@[t as int] == r && !settled_in(
                            self.types@,
                            sids,
                            r,
                        ),
                        None => true,
                    },
                    forall|t0: int| 0 <= t0 < t ==> settled_in(self.types@, sids, #[trigger] refs@[t0]),
                decreases refs@.len() - t + if missing is Some { 0int } else { 1int },
            {
                let r = refs[t];
                if !(holds(&ids, r) || self.position_of_id(r).is_some()) {
                    missing = Some(r);
                } else {
                    t += 1;
                }
            }
            let ghost f_before = failed@;
            match missing {
                Some(r) => {
                    failed.push((td, RegistrationError::BrokenReference { referenced_id: r }));
                    proof {
                        fi = fi.push(idx as int);
                        lemma_move_head(fi.drop_last(), idx_of(q0));
                        assert forall|j: int| f0 <= j < failed@.len() implies is_unresolved(#[trigger] failed@[j].1)
                            && unresolved_pre(self.types@, sids, failed@, failed@[j].0, failed@[j].1)
                            && !(failed@[j].1 is BlockedReference) by {
                            if j < f_before.len() {
                                assert(failed@ == f_before + seq![failed@.last()]);
                                lemma_pre_extends(self.types@, sids, f_before, seq![failed@.last()], failed@[j].0, failed@[j].1);
                            } else {
                                let d = failed@[j].0;
                                assert(refs_of(d.attributes)[t as int] == r);
                            }
                        }
                        assert(failed@.subrange(0, f0 as int) =~= f_before.subrange(0, f0 as int));
                        assert forall|j: int| 0 <= j < fi.len() implies 0 <= #[trigger] fi[j] < batch.len() && failed@[f0 + j].0
                            == batch[fi[j]] by {
                            if j < fi.len() - 1 {
                                assert(failed@[f0 + j] == f_before[f0 + j]);
                            }
                        }
                    }
                },
                None => {
                    assert(t == refs@.len());
                    let ghost r0 = rest@;
                    rest.push((idx, td));
                    proof {
                        lemma_idx_push(r0, (idx, td));
                        lemma_move_head(idx_of(r0), idx_of(q0));
                        broadcast use vstd::multiset::group_multiset_axioms;
                        assert forall|q: int| 0 <= q < rest@.len() implies all_settled_in(self.types@, sids, #[trigger] rest@[q].1) by {
                            if q < r0.len() {
                                assert(rest@[q] == r0[q]);
                            }
                        }
                    }
                },
            }
        }
        // Cycles, one at a time.
        loop
            invariant
                self.wf(),
                sids == all.map_values(|e: (usize, TypeDefinition)| e.1.id),
                entries_of(batch, rest@),
                forall|q: int| 0 <= q < rest@.len() ==> all_settled_in(self.types@, sids, #[trigger] rest@[q].1),
                failed@.len() == f0 + fi.len(),
                failed@.subrange(0, f0 as int) == old(failed)@,
                fi.to_multiset().add(idx_of(rest@).to_multiset()) == idx_of(all).to_multiset(),
                forall|j: int|
                    0 <= j < fi.len() ==> 0 <= #[trigger] fi[j] < batch.len() && failed@[f0 + j].0
                        == batch[fi[j]],
                forall|j: int| f0 <= j < failed@.len() ==> is_unresolved(#[trigger] failed@[j].1)
                    && unresolved_pre(self.types@, sids, failed@, failed@[j].0, failed@[j].1)
                    && !(failed@[j].1 is BlockedReference),
                forall|j: int| 0 <= j < f0 ==> !is_unresolved(#[trigger] failed@[j].1),
            ensures
                exists|rank: spec_fn(u64) -> nat| #[trigger] pending_ranked_by(rest@, rank),
            decreases rest.len(),
        {
            let deps = dependency_lists(&rest);
            let cycle = detect_minimal_cycle(&deps);
            if cycle.len() == 0 {
                proof {
                    let rank = choose|rank: spec_fn(u64) -> nat| #[trigger] ranked_by(deps@, rank);
                    assert forall|q1: int, q2: int|
                        0 <= q1 < rest@.len() && 0 <= q2 < rest@.len() && (forall|q0: int| 0 <= q0 < q1 ==> (#[trigger] rest@[q0]).1.id != rest@[q1].1.id)
                            && refs_of((#[trigger] rest@[q1]).1.attributes).contains((#[trigger] rest@[q2]).1.id) implies rank(rest@[q2].1.id) < rank(rest@[q1].1.id) by {
                        let a = rest@[q1].1.id;
                        let b = rest@[q2].1.id;
                        assert(deps@[q1].0 == a);
                        assert(deps@[q2].0 == b);
                        assert forall|q0: int| 0 <= q0 < q1 implies #[trigger] deps@[q0].0 != a by {
                            assert(rest@[q0].1.id != a);
                        }
                        assert(is_first_entry(deps@, a, q1));
                        assert(has_key(deps@, a));
                        lemma_key_index(deps@, a);
                        lemma_first_unique(deps@, a, q1, key_index(deps@, a));
                        assert(deps@[q1].1@.contains(b));
                        assert(depends_on(deps@, a, b));
                        assert(has_key(deps@, b));
                    }
                    assert(pending_ranked_by(rest@, rank));
                }
                break;
            }
            let ghost c = cycle@;
            assert forall|a: int| 0 <= a < c.len() implies has_key(deps@, #[trigger] c[a]) by {
                if a < c.len() - 1 {
                    assert(depends_on(deps@, c[a], c[a + 1]));
                } else {
                    assert(depends_on(deps@, c[0], c[1]));
                }
            }
            let mut pairs: Vec<(u64, String)> = Vec::new();
            let mut m: usize = 0;
            while m < cycle.len()
                invariant
                    c == cycle@,
                    deps@.len() == rest@.len(),
                    forall|a: int| 0 <= a < c.len() ==> has_key(deps@, #[trigger] c[a]),
                    0 <= m <= c.len(),
                    pairs@.len() == m,
                    forall|a: int|
                        0 <= a < m ==> (#[trigger] pairs@[a]).0 == c[a] && pairs@[a].1 == rest@[key_index(
                            deps@,
                            c[a],
                        )].1.name,
                decreases c.len() - m,
            {
                let x = find_key(&deps, cycle[m]).unwrap();
                proof {
                    lemma_key_index(deps@, c[m as int]);
                    lemma_first_unique(deps@, c[m as int], x as int, key_index(deps@, c[m as int]));
                }
                pairs.push((cycle[m], rest[x].1.name.clone()));
                m += 1;
            }
            let ghost r0 = rest@;
            let ghost fstart = failed@.len();
            let ghost fi0 = fi;
            let ghost big_f = failed@;
            let mut others: Vec<(usize, TypeDefinition)> = Vec::new();
            let ghost mut done: int = 0;
            while rest.len() > 0
                invariant
                    self.wf(),
                    c == cycle@,
                    entries_of(batch, r0),
                    forall|q: int| 0 <= q < r0.len() ==> all_settled_in(self.types@, sids, #[trigger] r0[q].1),
                    0 <= done <= r0.len(),
                    rest@ == r0.subrange(done, r0.len() as int),
                    entries_of(batch, others@),
                    forall|q: int| 0 <= q < others@.len() ==> all_settled_in(self.types@, sids, #[trigger] others@[q].1),
                    others@.len() + (failed@.len() - fstart) == done,
                    failed@.len() >= fstart,
                    fstart == f0 + fi0.len(),
                    fstart == big_f.len(),
                    failed@.len() == f0 + fi.len(),
                    failed@.subrange(0, fstart as int) == big_f,
                    fi.to_multiset().add(idx_of(others@).to_multiset()).add(idx_of(rest@).to_multiset())
                        == idx_of(all).to_multiset(),
                    forall|j: int|
                        0 <= j < fi.len() ==> 0 <= #[trigger] fi[j] < batch.len() && failed@[f0 + j].0
                            == batch[fi[j]],
                    forall|j: int| fstart <= j < failed@.len() ==> (#[trigger] failed@[j]).1 is CircularReference
                        && failed@[j].1->cycle@ == pairs@ && c.contains(failed@[j].0.id)
                        && all_settled_in(self.types@, sids, failed@[j].0),
                    forall|i: int| 0 <= i < done && c.contains(#[trigger] r0[i].1.id) ==> exists|j: int|
                        fstart <= j < failed@.len() && #[trigger] failed@[j].0 == r0[i].1,
                decreases rest.len(),
            {
                let ghost rb = rest@;
                let ghost fb = failed@;
                let ghost ob = others@;
                proof {
                    lemma_idx_remove(rest@);
                }
                let (idx, td) = rest.remove(0);
                assert(rb[0] == (idx, td));
                assert(r0[done] == (idx, td));
                if holds(&cycle, td.id) {
                    let cp = copy_cycle(&pairs);
                    failed.push((td, RegistrationError::CircularReference { cycle: cp }));
                    proof {
                        let fprev = fi;
                        fi = fi.push(idx as int);
                        lemma_move_head(fprev, idx_of(rb));
                        broadcast use vstd::multiset::group_multiset_axioms;
                        assert(failed@.subrange(0, fstart as int) =~= fb.subrange(0, fstart as int));
                        assert forall|j: int| 0 <= j < fi.len() implies 0 <= #[trigger] fi[j] < batch.len()
                            && failed@[f0 + j].0 == batch[fi[j]] by {
                            if j < fi.len() - 1 {
                                assert(failed@[f0 + j] == fb[f0 + j]);
                                assert(fprev[j] == fi[j]);
                            }
                        }
                        assert forall|i: int| 0 <= i < done + 1 && c.contains(#[trigger] r0[i].1.id) implies exists|j: int|
                            fstart <= j < failed@.len() && #[trigger] failed@[j].0 == r0[i].1 by {
                            if i < done {
                                let j = choose|j: int| fstart <= j < fb.len() && #[trigger] fb[j].0 == r0[i].1;
                                assert(failed@[j] == fb[j]);
                            } else {
                                assert(failed@[failed@.len() - 1].0 == r0[i].1);
                            }
                        }
                    }
                } else {
                    others.push((idx, td));
                    proof {
                        lemma_idx_push(ob, (idx, td));
                        lemma_move_head(idx_of(ob), idx_of(rb));
                        broadcast use vstd::multiset::group_multiset_axioms;
                        assert forall|q: int| 0 <= q < others@.len() implies all_settled_in(self.types@, sids, #[trigger] others@[q].1) by {
                            if q < ob.len() {
                                assert(others@[q] == ob[q]);
                            }
                        }
                    }
                }
                proof {
                    done = done + 1;
                    assert(rest@ =~= r0.subrange(done, r0.len() as int));
                }
            }
            proof {
                let more = failed@.subrange(fstart as int, failed@.len() as int);
                assert(failed@ =~= big_f + more);
                assert(cycle_witnessed(failed@, pairs@)) by {
                    lemma_key_index(deps@, c[0]);
                    lemma_key_index(deps@, c[c.len() - 1]);
                    lemma_pair_ids(c, pairs@);
                    assert forall|k: int| 0 <= k < pairs@.len() - 1 implies #[trigger] has_cycle_step(failed@, pairs@, k) by {
                        lemma_key_index(deps@, c[k]);
                        let i = key_index(deps@, c[k]);
                        assert(r0[i].1.id == c[k]);
                        assert(c.contains(r0[i].1.id));
                        let j = choose|j: int| fstart <= j < failed@.len() && #[trigger] failed@[j].0 == r0[i].1;
                        assert(depends_on(deps@, c[k], c[k + 1]));
                        assert(deps@[i].1@.contains(c[k + 1]));
                        assert(cycle_step(failed@, pairs@, k, j));
                    }
                }
                assert forall|j: int| f0 <= j < failed@.len() implies is_unresolved(#[trigger] failed@[j].1)
                    && unresolved_pre(self.types@, sids, failed@, failed@[j].0, failed@[j].1)
                    && !(failed@[j].1 is BlockedReference) by {
                    if j < fstart {
                        assert(failed@[j] == big_f[j]);
                        lemma_pre_extends(self.types@, sids, big_f, more, failed@[j].0, failed@[j].1);
                    } else {
                        let d = failed@[j].0;
                        assert(c.contains(d.id));
                        let m = choose|m: int| 0 <= m < c.len() && c[m] == d.id;
                        assert(pairs@[m].0 == d.id);
                    }
                }
                lemma_key_index(deps@, c[0]);
                let i0 = key_index(deps@, c[0]);
                assert(c.contains(r0[i0].1.id));
                assert(failed@.len() > fstart);
                assert(idx_of(rest@) =~= Seq::<int>::empty());
                broadcast use vstd::multiset::group_multiset_axioms;
                assert(failed@.subrange(0, f0 as int) =~= big_f.subrange(0, f0 as int));
            }
            rest = others;
        }
        // What is left is blocked.
        let ghost blocked = rest@;
        let ghost fb0 = failed@.len();
        let ghost mut placed: int = 0;
        proof {
            assert forall|j: int| 0 <= j < fb0 implies !((#[trigger] failed@[j]).1 is BlockedReference) by {
                if j >= f0 {
                    assert(!(failed@[j].1 is BlockedReference));
                } else {
                    assert(!is_unresolved(failed@[j].1));
                }
            }
        }
        while rest.len() > 0
            invariant
                0 <= placed <= blocked.len(),
                rest@ == blocked.subrange(placed, blocked.len() as int),
                failed@.len() == fb0 + placed,
                fb0 >= f0,
                exists|rank: spec_fn(u64) -> nat| #[trigger] pending_ranked_by(blocked, rank),
                forall|j: int| 0 <= j < fb0 ==> !((#[trigger] failed@[j]).1 is BlockedReference),
                forall|q: int| 0 <= q < placed ==> failed@[fb0 + q].0 == (#[trigger] blocked[q]).1
                    && failed@[fb0 + q].1 is BlockedReference,
                self.wf(),
                sids == all.map_values(|e: (usize, TypeDefinition)| e.1.id),
                entries_of(batch, rest@),
                forall|q: int| 0 <= q < rest@.len() ==> all_settled_in(self.types@, sids, #[trigger] rest@[q].1),
                failed@.len() == f0 + fi.len(),
                failed@.subrange(0, f0 as int) == old(failed)@,
                fi.to_multiset().add(idx_of(rest@).to_multiset()) == idx_of(all).to_multiset(),
                forall|j: int|
                    0 <= j < fi.len() ==> 0 <= #[trigger] fi[j] < batch.len() && failed@[f0 + j].0
                        == batch[fi[j]],
                forall|j: int| f0 <= j < failed@.len() ==> is_unresolved(#[trigger] failed@[j].1)
                    && unresolved_pre(self.types@, sids, failed@, failed@[j].0, failed@[j].1),
                forall|j: int| 0 <= j < f0 ==> !is_unresolved(#[trigger] failed@[j].1),
            decreases rest.len(),
        {
            let ghost rb = rest@;
            let ghost fb = failed@;
            proof {
                lemma_idx_remove(rest@);
            }
            let (idx, td) = rest.remove(0);
            assert(rb[0] == (idx, td));
            assert(blocked[placed] == (idx, td));
            failed.push((td, RegistrationError::BlockedReference));
            proof {
                assert forall|j: int| 0 <= j < fb0 implies !((#[trigger] failed@[j]).1 is BlockedReference) by {
                    assert(failed@[j] == fb[j]);
                }
                assert forall|q: int| 0 <= q < placed + 1 implies failed@[fb0 + q].0 == (#[trigger] blocked[q]).1
                    && failed@[fb0 + q].1 is BlockedReference by {
                    if q < placed {
                        assert(failed@[fb0 + q] == fb[fb0 + q]);
                    }
                }
                placed = placed + 1;
                assert(rest@ =~= blocked.subrange(placed, blocked.len() as int));
                let fprev = fi;
                fi = fi.push(idx as int);
                lemma_move_head(fprev, idx_of(rb));
                assert(fprev.push(idx as int).to_multiset().add(idx_of(rest@).to_multiset()) =~= fprev.to_multiset().add(idx_of(rb).to_multiset()));
                assert(failed@ =~= fb + seq![failed@.last()]);
                assert(failed@.subrange(0, f0 as int) =~= fb.subrange(0, f0 as int));
                assert forall|j: int| 0 <= j < fi.len() implies 0 <= #[trigger] fi[j] < batch.len()
                    && failed@[f0 + j].0 == batch[fi[j]] by {
                    if j < fi.len() - 1 {
                        assert(failed@[f0 + j] == fb[f0 + j]);
                        assert(fprev[j] == fi[j]);
                    }
                }
                assert forall|j: int| f0 <= j < failed@.len() implies is_unresolved(#[trigger] failed@[j].1)
                    && unresolved_pre(self.types@, sids, failed@, failed@[j].0, failed@[j].1) by {
                    if j < fb.len() {
                        assert(failed@[j] == fb[j]);
                        lemma_pre_extends(self.types@, sids, fb, seq![failed@.last()], failed@[j].0, failed@[j].1);
                    }
                }
            }
        }
        proof {
            assert(idx_of(rest@) =~= Seq::<int>::empty());
            broadcast use vstd::multiset::group_multiset_axioms;
            assert(fi.to_multiset() =~= idx_of(all).to_multiset());
            assert(placed == blocked.len());
            lemma_classification_closes(self.types@, batch, all, sids, failed@, f0 as int, fi, blocked, fb0 as int);
            assert(failed@.subrange(0, f0 as int) == old(failed)@);
        }
        Ghost(fi)
    }
}

impl Store {
    /// Registers a batch of declarations; see `TypeDefinitionRegistry::register`.
    #[verifier::loop_isolation(false)]
    pub fn register(&mut self, type_definitions: Vec<TypeDefinition>) -> (r: (
        Vec<Arc<TypeDefinitionInstance>>,
        Vec<(TypeDefinition, RegistrationError)>,
    ))
        requires
            old(self).wf(),
        ensures
            final(self).wf(),
            final(self).instances() == old(self).instances() + r.0@,
            registration_outcome(old(self).instances(), type_definitions@, r.0@, r.1@),
    {
        let ghost batch = type_definitions@;
        let ghost n = batch.len();
        let ghost old_types = self.types@;
        let mut pending = order_by_reference_count(type_definitions);
        let mut registered: Vec<Arc<TypeDefinitionInstance>> = Vec::new();
        let mut failed: Vec<(TypeDefinition, RegistrationError)> = Vec::new();
        let ghost mut si: Seq<int> = Seq::empty();
        let ghost mut fi: Seq<int> = Seq::empty();
        proof {
            broadcast use vstd::multiset::group_multiset_axioms;
            assert(si.to_multiset() =~= vstd::multiset::Multiset::empty());
            assert(fi.to_multiset() =~= vstd::multiset::Multiset::empty());
        }
        loop
            invariant
                self.wf(),
                self.types@ == old_types + registered@,
                entries_of(batch, pending@),
                si.len() == registered@.len(),
                fi.len() == failed@.len(),
                si.to_multiset().add(fi.to_multiset()).add(idx_of(pending@).to_multiset())
                    == indices(n).to_multiset(),
                forall|j: int|
                    0 <= j < registered@.len() ==> 0 <= #[trigger] si[j] < n && registered_from(
                        old_types + registered@.take(j),
                        batch[si[j]],
                        registered@[j],
                    ),
                forall|j: int|
                    #![trigger fi[j]]
                    #![trigger failed@[j]]
                    0 <= j < failed@.len() ==> 0 <= fi[j] < n && failed@[j].0 == batch[fi[j]]
                        && !is_unresolved(failed@[j].1) && conflict_justified(
                        old_types,
                        self.types@,
                        failed@[j].0,
                        failed@[j].1,
                    ),
            decreases pending.len(),
        {
            if pending.len() == 0 {
                proof {
                    broadcast use vstd::multiset::group_multiset_axioms;
                    assert(idx_of(pending@).to_multiset().len() == 0);
                    assert(idx_of(pending@).to_multiset() =~= vstd::multiset::Multiset::empty());
                    vstd::seq_lib::lemma_multiset_commutative(si, fi);
                    assert((si + fi).to_multiset() == indices(batch.len()).to_multiset());
                    let zero = |x: u64| 0nat;
                    assert(blocked_ranked_by(failed@, zero));
                    assert(traced_outcome(old_types, batch, registered@, failed@, si, fi));
                }
                return (registered, failed);
            }
            let count = pending.len();
            let ghost round_types = self.types@;
            let ghost r0 = registered@.len();
            let ghost f0 = failed@.len();
            let mut k: usize = 0;
            while k < count
                invariant
                    self.wf(),
                    self.types@ == old_types + registered@,
                    entries_of(batch, pending@),
                    si.len() == registered@.len(),
                    fi.len() == failed@.len(),
                    si.to_multiset().add(fi.to_multiset()).add(idx_of(pending@).to_multiset())
                        == indices(n).to_multiset(),
                    forall|j: int|
                        0 <= j < registered@.len() ==> 0 <= #[trigger] si[j] < n && registered_from(
                            old_types + registered@.take(j),
                            batch[si[j]],
                            registered@[j],
                        ),
                    forall|j: int|
                        #![trigger fi[j]]
                        #![trigger failed@[j]]
                        0 <= j < failed@.len() ==> 0 <= fi[j] < n && failed@[j].0
                            == batch[fi[j]] && !is_unresolved(failed@[j].1) && conflict_justified(
                            old_types,
                            self.types@,
                            failed@[j].0,
                            failed@[j].1,
                        ),
                    0 <= k <= count,
                    registered@.len() >= r0,
                    failed@.len() >= f0,
                    pending@.len() + (registered@.len() - r0) + (failed@.len() - f0) == count,
                    pending@.len() >= count - k,
                    round_types == old_types + registered@.take(r0 as int),
                    r0 <= registered@.len(),
                    self.types@.len() == round_types.len() ==> forall|p: int|
                        count - k <= p < pending@.len() ==> stuck(self.types@, #[trigger] pending@[p].1),
                decreases count - k,
            {
                let ghost pb = pending@;
                let ghost types_b = self.types@;
                let ghost reg_b = registered@;
                let ghost fail_b = failed@;
                proof {
                    lemma_idx_remove(pending@);
                }
                let (idx, td) = pending.remove(0);
                assert(pb[0] == (idx, td));
                match self.attempt(td) {
                    Attempt::Registered(inst) => {
                        registered.push(inst);
                        proof {
                            let sprev = si;
                            si = si.push(idx as int);
                            lemma_move_head(sprev, idx_of(pb));
                            broadcast use vstd::multiset::group_multiset_axioms;
                            assert(self.types@ =~= old_types + registered@);
                            assert(registered@.take(reg_b.len() as int) =~= reg_b);
                            assert forall|j: int| 0 <= j < registered@.len() implies 0 <= #[trigger] si[j] < n
                                && registered_from(old_types + registered@.take(j), batch[si[j]], registered@[j]) by {
                                if j < reg_b.len() {
                                    assert(registered@.take(j) =~= reg_b.take(j));
                                    assert(registered@[j] == reg_b[j]);
                                    assert(si[j] == sprev[j]);
                                }
                            }
                            assert forall|j: int| 0 <= j < failed@.len() implies 0 <= #[trigger] fi[j] < n
                                && failed@[j].0 == batch[fi[j]] && !is_unresolved(failed@[j].1) && conflict_justified(
                                old_types,
                                self.types@,
                                failed@[j].0,
                                failed@[j].1,
                            ) by {
                                assert(self.types@ =~= types_b + seq![inst]);
                                assert(fi[j] == fi[j]);
                                assert(conflict_justified(old_types, types_b, failed@[j].0, failed@[j].1));
                                lemma_conflict_extends(old_types, types_b, seq![inst], failed@[j].0, failed@[j].1);
                            }
                            assert(registered@.take(r0 as int) =~= reg_b.take(r0 as int));
                        }
                    },
                    Attempt::Failed(d, e) => {
                        failed.push((d, e));
                        proof {
                            let fprev = fi;
                            fi = fi.push(idx as int);
                            lemma_move_head(fprev, idx_of(pb));
                            broadcast use vstd::multiset::group_multiset_axioms;
                            assert(si.to_multiset().add(fi.to_multiset()).add(idx_of(pending@).to_multiset())
                                =~= si.to_multiset().add(fprev.to_multiset()).add(idx_of(pb).to_multiset()));
                            assert forall|j: int| 0 <= j < failed@.len() implies 0 <= #[trigger] fi[j] < n
                                && failed@[j].0 == batch[fi[j]] && !is_unresolved(failed@[j].1) && conflict_justified(
                                old_types,
                                self.types@,
                                failed@[j].0,
                                failed@[j].1,
                            ) by {
                                if j < fail_b.len() {
                                    assert(failed@[j] == fail_b[j]);
                                    assert(fi[j] == fprev[j]);
                                } else {
                                    lemma_conflict_narrow(old_types, registered@, types_b, d, e);
                                }
                            }
                        }
                    },
                    Attempt::Postponed(d) => {
                        pending.push((idx, d));
                        proof {
                            lemma_idx_push(pb.remove(0), (idx, d));
                            lemma_move_head(Seq::<int>::empty(), idx_of(pb));
                            assert(idx_of(pb).drop_first().push(idx_of(pb)[0]).to_multiset() =~= idx_of(pb).to_multiset());
                            assert forall|p: int| 0 <= p < pending@.len() implies (#[trigger] pending@[p]).0 < batch.len()
                                && pending@[p].1 == batch[pending@[p].0 as int] by {
                                if p < pending@.len() - 1 {
                                    assert(pending@[p] == pb[p + 1]);
                                }
                            }
                            if self.types@.len() == round_types.len() {
                                assert forall|p: int| count - (k + 1) <= p < pending@.len() implies stuck(self.types@, #[trigger] pending@[p].1) by {
                                    if p < pending@.len() - 1 {
                                        assert(pending@[p] == pb[p + 1]);
                                    }
                                }
                            }
                        }
                    },
                }
                k += 1;
            }
            if pending.len() == count {
                proof {
                    assert(registered@.len() == r0);
                    assert(registered@ =~= registered@.take(r0 as int));
                }
                let ghost fb = failed@;
                let Ghost(fs) = self.classify_stuck(pending, &mut failed, Ghost(batch));
                proof {
                    let fin = failed@;
                    let fi2 = fi + fs;
                    broadcast use vstd::multiset::group_multiset_axioms;
                    vstd::seq_lib::lemma_multiset_commutative(fi, fs);
                    vstd::seq_lib::lemma_multiset_commutative(si, fi2);
                    assert(fin.subrange(0, fb.len() as int) == fb);
                    assert forall|j: int| 0 <= j < fin.len() implies 0 <= #[trigger] fi2[j] < n && fin[j].0 == batch[fi2[j]]
                        && failure_justified(old_types, old_types + registered@, fin, fin[j].0, fin[j].1) by {
                        if j < fb.len() {
                            assert(fin[j] == fb[j]);
                            assert(fi2[j] == fi[j]);
                        } else {
                            assert(fi2[j] == fs[j - fb.len()]);
                        }
                    }
                    assert((si + fi2).to_multiset() == indices(batch.len()).to_multiset());
                    assert(old_types + registered@ == self.types@);
                    assert(traced_outcome(old_types, batch, registered@, fin, si, fi2));
                }
                return (registered, failed);
            }
        }
    }
}

impl TypeDefinitionRegistry {
    /// Identifiers and names are unique.
    #[verifier::type_invariant]
    spec fn keys_unique(&self) -> bool {
        self.store.wf()
    }

    /// The registered instances, in the order they were registered.
    pub closed spec fn instances(&self) -> Seq<Arc<TypeDefinitionInstance>> {
        self.store.instances()
    }

    /// Creates an empty registry.
    pub fn new() -> (r: Self)
        ensures
            r.instances().len() == 0,
    {
        TypeDefinitionRegistry { store: Store::new() }
    }

    /// Registers a batch of declarations, which may refer to registered types and to each other
    /// in any order. Declarations are attempted in rounds, fewest references first; one whose
    /// references are not all registered yet waits for the next round. When a round makes no
    /// progress, the declarations left are classified as broken, circular or blocked. Returns
    /// the instances registered, in registration order, and the declarations that failed, each
    /// with its reason; a failed declaration leaves the registry unchanged.
    pub fn register(&mut self, type_definitions: Vec<TypeDefinition>) -> (r: (
        Vec<Arc<TypeDefinitionInstance>>,
        Vec<(TypeDefinition, RegistrationError)>,
    ))
        ensures
            unique_keys(final(self).instances()),
            final(self).instances() == old(self).instances() + r.0@,
            registration_outcome(old(self).instances(), type_definitions@, r.0@, r.1@),
    {
        proof {
            use_type_invariant(&*self);
        }
        let mut store = Store::new();
        std::mem::swap(&mut store, &mut self.store);
        let r = store.register(type_definitions);
        self.store = store;
        r
    }

    /// The instance with an identifier.
    pub fn get_by_id(&self, id: u64) -> (r: Option<Arc<TypeDefinitionInstance>>)
        ensures
            r is Some <==> has_id(self.instances(), id),
            r matches Some(i) ==> i == lookup(self.instances(), id),
    {
        proof {
            use_type_invariant(&*self);
        }
        self.store.get_by_id(id)
    }

    /// The instance with a name.
    pub fn get_by_name(&self, name: &String) -> (r: Option<Arc<TypeDefinitionInstance>>)
        ensures
            r is Some <==> has_name(self.instances(), name@),
            r matches Some(i) ==> i.spec_name()@ == name@ && exists|k: int|
                0 <= k < self.instances().len() && #[trigger] self.instances()[k] == i,
    {
        let r = self.store.get_by_name(name);
        proof {
            if r is Some {
                let i = r->Some_0;
                let k = choose|k: int|
                    0 <= k < self.store.instances().len() && #[trigger] self.store.instances()[k] == i;
                assert(self.instances()[k] == i);
            }
        }
        r
    }
}

impl Default for TypeDefinitionRegistry {
    fn default() -> (r: Self)
        ensures
            r.instances().len() == 0,
    {
        TypeDefinitionRegistry::new()
    }
}

/// Whether no other declaration of the batch shares the identifier or the name of declaration
/// `i`.
pub open spec fn unique_in_batch(batch: Seq<TypeDefinition>, i: int) -> bool {
    forall|i2: int|
        0 <= i2 < batch.len() && i2 != i ==> (#[trigger] batch[i2]).id != batch[i].id && batch[i2].name@
            != batch[i].name@
}

/// Whether declaration `i` has an identifier and a name that are not registered and that no
/// other declaration of the batch uses.
pub open spec fn fresh_in(old: Seq<Arc<TypeDefinitionInstance>>, batch: Seq<TypeDefinition>, i: int) -> bool {
    &&& 0 <= i < batch.len()
    &&& !has_id(old, batch[i].id)
    &&& !has_name(old, batch[i].name@)
    &&& unique_in_batch(batch, i)
}

/// The batch indices of successes and failures are each batch index exactly once.
proof fn lemma_trace_partition(
    old: Seq<Arc<TypeDefinitionInstance>>,
    batch: Seq<TypeDefinition>,
    succeeded: Seq<Arc<TypeDefinitionInstance>>,
    failed: Seq<(TypeDefinition, RegistrationError)>,
    si: Seq<int>,
    fi: Seq<int>,
)
    requires
        traced_outcome(old, batch, succeeded, failed, si, fi),
    ensures
        forall|i: int| 0 <= i < batch.len() ==> si.contains(i) || fi.contains(i),
        forall|a: int, b: int| 0 <= a < si.len() && 0 <= b < si.len() && a != b ==> si[a] != si[b],
        forall|a: int, b: int| 0 <= a < si.len() && 0 <= b < fi.len() ==> si[a] != fi[b],
        forall|a: int, b: int| 0 <= a < fi.len() && 0 <= b < fi.len() && a != b ==> fi[a] != fi[b],
{
    broadcast use vstd::multiset::group_multiset_axioms;

    let all = si + fi;
    let ix = indices(batch.len());
    assert(ix.no_duplicates());
    ix.lemma_multiset_has_no_duplicates();
    all.lemma_multiset_has_no_duplicates_conv();
    assert forall|i: int| 0 <= i < batch.len() implies si.contains(i) || fi.contains(i) by {
        assert(ix[i] == i);
        assert(ix.to_multiset().count(i) > 0);
        assert(all.to_multiset().count(i) > 0);
        let k = choose|k: int| 0 <= k < all.len() && all[k] == i;
        if k < si.len() {
            assert(si[k] == i);
        } else {
            assert(fi[k - si.len()] == i);
        }
    }
    assert forall|a: int, b: int| 0 <= a < si.len() && 0 <= b < si.len() && a != b implies si[a] != si[b] by {
        assert(all[a] == si[a] && all[b] == si[b]);
    }
    assert forall|a: int, b: int| 0 <= a < si.len() && 0 <= b < fi.len() implies si[a] != fi[b] by {
        assert(all[a] == si[a] && all[si.len() + b] == fi[b]);
    }
    assert forall|a: int, b: int| 0 <= a < fi.len() && 0 <= b < fi.len() && a != b implies fi[a] != fi[b] by {
        assert(all[si.len() + a] == fi[a] && all[si.len() + b] == fi[b]);
    }
}

/// An identifier held by the registry after the batch is held before it or by a success, which
/// carries the identifier of its declaration.
proof fn lemma_id_source(
    old: Seq<Arc<TypeDefinitionInstance>>,
    batch: Seq<TypeDefinition>,
    succeeded: Seq<Arc<TypeDefinitionInstance>>,
    failed: Seq<(TypeDefinition, RegistrationError)>,
    si: Seq<int>,
    fi: Seq<int>,
    id: u64,
) -> (j: int)
    requires
        traced_outcome(old, batch, succeeded, failed, si, fi),
        has_id(old + succeeded, id),
        !has_id(old, id),
    ensures
        0 <= j < succeeded.len(),
        succeeded[j].spec_id() == id,
        batch[si[j]].id == id,
{
    let reg = old + succeeded;
    let k = choose|k: int| 0 <= k < reg.len() && #[trigger] reg[k].spec_id() == id;
    if k < old.len() {
        assert(reg[k] == old[k]);
    }
    let j = k - old.len();
    assert(reg[k] == succeeded[j]);
    assert(0 <= si[j] < batch.len());
    j
}

/// Same as `lemma_id_source`, for names.
proof fn lemma_name_source(
    old: Seq<Arc<TypeDefinitionInstance>>,
    batch: Seq<TypeDefinition>,
    succeeded: Seq<Arc<TypeDefinitionInstance>>,
    failed: Seq<(TypeDefinition, RegistrationError)>,
    si: Seq<int>,
    fi: Seq<int>,
    name: Seq<char>,
) -> (j: int)
    requires
        traced_outcome(old, batch, succeeded, failed, si, fi),
        has_name(old + succeeded, name),
        !has_name(old, name),
    ensures
        0 <= j < succeeded.len(),
        succeeded[j].spec_name()@ == name,
        batch[si[j]].name@ == name,
{
    let reg = old + succeeded;
    let k = choose|k: int| 0 <= k < reg.len() && #[trigger] reg[k].spec_name()@ == name;
    if k < old.len() {
        assert(reg[k] == old[k]);
    }
    let j = k - old.len();
    assert(reg[k] == succeeded[j]);
    assert(0 <= si[j] < batch.len());
    j
}

/// Declaration `i` of the batch is not among the successes: it failed.
proof fn lemma_failed_at(
    old: Seq<Arc<TypeDefinitionInstance>>,
    batch: Seq<TypeDefinition>,
    succeeded: Seq<Arc<TypeDefinitionInstance>>,
    failed: Seq<(TypeDefinition, RegistrationError)>,
    si: Seq<int>,
    fi: Seq<int>,
    i: int,
) -> (j: int)
    requires
        traced_outcome(old, batch, succeeded, failed, si, fi),
        0 <= i < batch.len(),
        !si.contains(i),
    ensures
        0 <= j < failed.len(),
        fi[j] == i,
        failed[j].0 == batch[i],
        failure_justified(old, old + succeeded, failed, failed[j].0, failed[j].1),
{
    lemma_trace_partition(old, batch, succeeded, failed, si, fi);
    let j = choose|j: int| 0 <= j < fi.len() && fi[j] == i;
    assert(0 <= fi[j] < batch.len());
    j
}

/// A declaration with no references, and an identifier and a name that are neither registered
/// nor used by another declaration of the batch, is registered, and the registry then finds it
/// by its identifier and by its name.
pub proof fn lemma_fresh_declaration_registered(
    old: Seq<Arc<TypeDefinitionInstance>>,
    batch: Seq<TypeDefinition>,
    succeeded: Seq<Arc<TypeDefinitionInstance>>,
    failed: Seq<(TypeDefinition, RegistrationError)>,
    i: int,
)
    requires
        unique_keys(old + succeeded),
        registration_outcome(old, batch, succeeded, failed),
        fresh_in(old, batch, i),
        refs_of(batch[i].attributes).len() == 0,
    ensures
        exists|j: int|
            0 <= j < succeeded.len() && #[trigger] succeeded[j].spec_id() == batch[i].id
                && succeeded[j].spec_name() == batch[i].name,
        has_id(old + succeeded, batch[i].id),
        has_name(old + succeeded, batch[i].name@),
        lookup(old + succeeded, batch[i].id).spec_name() == batch[i].name,
{
    let (si, fi) = choose|si: Seq<int>, fi: Seq<int>| #[trigger] traced_outcome(old, batch, succeeded, failed, si, fi);
    lemma_trace_partition(old, batch, succeeded, failed, si, fi);
    let d = batch[i];
    let reg = old + succeeded;
    if !si.contains(i) {
        let j = lemma_failed_at(old, batch, succeeded, failed, si, fi, i);
        let e = failed[j].1;
        match e {
            RegistrationError::DuplicateTypeDefinition { existing_name } => {
                let k = choose|k: int| 0 <= k < reg.len() && #[trigger] reg[k].spec_id() == d.id && reg[k].spec_name() == existing_name;
                let j2 = lemma_id_source(old, batch, succeeded, failed, si, fi, d.id);
                assert(si[j2] != i);
                assert(batch[si[j2]].id != d.id);
            },
            RegistrationError::DuplicateTypeDefinitionName { existing_id } => {
                let k = choose|k: int| 0 <= k < reg.len() && #[trigger] reg[k].spec_id() == existing_id && reg[k].spec_name()@ == d.name@;
                assert(has_name(reg, d.name@));
                let j2 = lemma_name_source(old, batch, succeeded, failed, si, fi, d.name@);
                assert(si[j2] != i);
                assert(batch[si[j2]].name@ != d.name@);
            },
            RegistrationError::InstantiationError(_) => {},
            _ => {
                assert(all_registered(reg, refs_of(d.attributes)));
            },
        }
    }
    let j = choose|j: int| 0 <= j < si.len() && si[j] == i;
    assert(registered_from(old + succeeded.take(j), batch[si[j]], succeeded[j]));
    assert(reg[old.len() + j] == succeeded[j]);
    lemma_lookup_found(reg, d.id, old.len() + j);
}

/// A declaration that refers to another of the same batch is registered after it, when both
/// have fresh identifiers and names, the referred one has its own references registered and is
/// not a dictionary, and the referring one is an array of it.
pub proof fn lemma_dependency_registered_first(
    old: Seq<Arc<TypeDefinitionInstance>>,
    batch: Seq<TypeDefinition>,
    succeeded: Seq<Arc<TypeDefinitionInstance>>,
    failed: Seq<(TypeDefinition, RegistrationError)>,
    ia: int,
    ib: int,
)
    requires
        unique_keys(old + succeeded),
        registration_outcome(old, batch, succeeded, failed),
        fresh_in(old, batch, ia),
        fresh_in(old, batch, ib),
        ia != ib,
        batch[ia].attributes is Array,
        refs_of(batch[ia].attributes) == seq![batch[ib].id],
        !(batch[ib].attributes is Dictionary),
        all_registered(old, refs_of(batch[ib].attributes)),
    ensures
        exists|ja: int, jb: int|
            0 <= jb < ja < succeeded.len() && #[trigger] succeeded[ja].spec_id() == batch[ia].id
                && #[trigger] succeeded[jb].spec_id() == batch[ib].id,
{
    let (si, fi) = choose|si: Seq<int>, fi: Seq<int>| #[trigger] traced_outcome(old, batch, succeeded, failed, si, fi);
    lemma_trace_partition(old, batch, succeeded, failed, si, fi);
    let reg = old + succeeded;
    let a = batch[ia];
    let b = batch[ib];
    // The referred declaration is registered.
    if !si.contains(ib) {
        let j = lemma_failed_at(old, batch, succeeded, failed, si, fi, ib);
        match failed[j].1 {
            RegistrationError::DuplicateTypeDefinition { existing_name } => {
                let j2 = lemma_id_source(old, batch, succeeded, failed, si, fi, b.id);
                assert(batch[si[j2]].id != b.id);
            },
            RegistrationError::DuplicateTypeDefinitionName { existing_id } => {
                let k = choose|k: int| 0 <= k < reg.len() && #[trigger] reg[k].spec_id() == existing_id && reg[k].spec_name()@ == b.name@;
                assert(has_name(reg, b.name@));
                let j2 = lemma_name_source(old, batch, succeeded, failed, si, fi, b.name@);
                assert(batch[si[j2]].name@ != b.name@);
            },
            RegistrationError::InstantiationError(_) => {},
            _ => {
                assert forall|k: int| 0 <= k < refs_of(b.attributes).len() implies has_id(reg, #[trigger] refs_of(b.attributes)[k]) by {
                    lemma_has_id_extends(old, succeeded, refs_of(b.attributes)[k]);
                }
            },
        }
    }
    let jb = choose|jb: int| 0 <= jb < si.len() && si[jb] == ib;
    assert(registered_from(old + succeeded.take(jb), batch[si[jb]], succeeded[jb]));
    assert(reg[old.len() + jb] == succeeded[jb]);
    assert(has_id(reg, b.id));
    // The referring declaration is registered.
    if !si.contains(ia) {
        let j = lemma_failed_at(old, batch, succeeded, failed, si, fi, ia);
        match failed[j].1 {
            RegistrationError::DuplicateTypeDefinition { existing_name } => {
                let j2 = lemma_id_source(old, batch, succeeded, failed, si, fi, a.id);
                assert(batch[si[j2]].id != a.id);
            },
            RegistrationError::DuplicateTypeDefinitionName { existing_id } => {
                let k = choose|k: int| 0 <= k < reg.len() && #[trigger] reg[k].spec_id() == existing_id && reg[k].spec_name()@ == a.name@;
                assert(has_name(reg, a.name@));
                let j2 = lemma_name_source(old, batch, succeeded, failed, si, fi, a.name@);
                assert(batch[si[j2]].name@ != a.name@);
            },
            RegistrationError::InstantiationError(_) => {},
            _ => {
                assert(refs_of(a.attributes)[0] == b.id);
                assert(all_registered(reg, refs_of(a.attributes)));
            },
        }
    }
    let ja = choose|ja: int| 0 <= ja < si.len() && si[ja] == ia;
    assert(registered_from(old + succeeded.take(ja), batch[si[ja]], succeeded[ja]));
    let before = old + succeeded.take(ja);
    assert(refs_of(a.attributes)[0] == b.id);
    assert(has_id(before, b.id));
    let k = choose|k: int| 0 <= k < before.len() && #[trigger] before[k].spec_id() == b.id;
    if k < old.len() {
        assert(before[k] == old[k]);
        assert(has_id(old, b.id));
    }
    let jk = k - old.len();
    assert(before[k] == succeeded[jk]);
    assert(registered_from(old + succeeded.take(jk), batch[si[jk]], succeeded[jk]));
    assert(batch[si[jk]].id == b.id);
    assert(si[jk] == ib);
    assert(jk == jb);
    assert(succeeded[ja].spec_id() == a.id);
    assert(succeeded[jb].spec_id() == b.id);
}

/// A declaration with a fresh identifier and name, one of whose references is neither
/// registered nor the identifier of any declaration of the batch, fails with a broken reference
/// to an identifier that is not registered; to that one, when every reference before it is
/// registered.
pub proof fn lemma_unknown_reference_broken(
    old: Seq<Arc<TypeDefinitionInstance>>,
    batch: Seq<TypeDefinition>,
    succeeded: Seq<Arc<TypeDefinitionInstance>>,
    failed: Seq<(TypeDefinition, RegistrationError)>,
    i: int,
    r: u64,
)
    requires
        unique_keys(old + succeeded),
        registration_outcome(old, batch, succeeded, failed),
        fresh_in(old, batch, i),
        refs_of(batch[i].attributes).contains(r),
        !has_id(old, r),
        forall|i2: int| 0 <= i2 < batch.len() ==> (#[trigger] batch[i2]).id != r,
    ensures
        exists|j: int|
            0 <= j < failed.len() && (#[trigger] failed[j]).0 == batch[i] && failed[j].1 is BrokenReference
                && refs_of(batch[i].attributes).contains(failed[j].1->referenced_id) && !has_id(
                old + succeeded,
                failed[j].1->referenced_id,
            ) && ((forall|t: int|
                0 <= t < refs_of(batch[i].attributes).len() && refs_of(batch[i].attributes)[t] == r
                    ==> forall|t0: int| 0 <= t0 < t ==> has_id(old, #[trigger] refs_of(batch[i].attributes)[t0]))
                ==> failed[j].1->referenced_id == r),
{
    let (si, fi) = choose|si: Seq<int>, fi: Seq<int>| #[trigger] traced_outcome(old, batch, succeeded, failed, si, fi);
    lemma_trace_partition(old, batch, succeeded, failed, si, fi);
    let reg = old + succeeded;
    let d = batch[i];
    let refs = refs_of(d.attributes);
    let t = choose|t: int| 0 <= t < refs.len() && refs[t] == r;
    assert(!has_id(reg, r)) by {
        if has_id(reg, r) {
            let j2 = lemma_id_source(old, batch, succeeded, failed, si, fi, r);
            assert(batch[si[j2]].id != r);
        }
    }
    assert(!stalled(failed, r)) by {
        if stalled(failed, r) {
            let j2 = choose|j2: int| 0 <= j2 < failed.len() && #[trigger] failed[j2].0.id == r && is_unresolved(failed[j2].1);
            assert(0 <= fi[j2] < batch.len());
            assert(batch[fi[j2]].id != r);
        }
    }
    if si.contains(i) {
        let js = choose|js: int| 0 <= js < si.len() && si[js] == i;
        assert(registered_from(old + succeeded.take(js), batch[si[js]], succeeded[js]));
        assert(has_id(old + succeeded.take(js), refs[t]));
        lemma_has_id_extends(old + succeeded.take(js), succeeded.skip(js), r);
        assert(old + succeeded.take(js) + succeeded.skip(js) =~= reg);
        assert(false);
    }
    let j = lemma_failed_at(old, batch, succeeded, failed, si, fi, i);
    match failed[j].1 {
        RegistrationError::DuplicateTypeDefinition { existing_name } => {
            let j2 = lemma_id_source(old, batch, succeeded, failed, si, fi, d.id);
            assert(batch[si[j2]].id != d.id);
        },
        RegistrationError::DuplicateTypeDefinitionName { existing_id } => {
            let k = choose|k: int| 0 <= k < reg.len() && #[trigger] reg[k].spec_id() == existing_id && reg[k].spec_name()@ == d.name@;
            assert(has_name(reg, d.name@));
            let j2 = lemma_name_source(old, batch, succeeded, failed, si, fi, d.name@);
            assert(batch[si[j2]].name@ != d.name@);
        },
        RegistrationError::InstantiationError(_) => {
            assert(has_id(reg, refs[t]));
        },
        RegistrationError::BrokenReference { referenced_id } => {
            let t2 = choose|t2: int| 0 <= t2 < refs.len() && #[trigger] refs[t2] == referenced_id && !settled(reg, failed, referenced_id)
                && forall|t0: int| 0 <= t0 < t2 ==> settled(reg, failed, #[trigger] refs[t0]);
            assert(refs.contains(referenced_id));
            if forall|tt: int|
                0 <= tt < refs.len() && refs[tt] == r ==> forall|t0: int| 0 <= t0 < tt ==> has_id(old, #[trigger] refs[t0]) {
                if t2 < t {
                    assert(has_id(old, refs[t2]));
                    lemma_has_id_extends(old, succeeded, refs[t2]);
                    assert(settled(reg, failed, refs[t2]));
                } else if t2 > t {
                    assert(settled(reg, failed, refs[t]));
                }
            }
        },
        _ => {
            assert(settled(reg, failed, refs[t]));
        },
    }
}

/// A declaration whose identifier is registered fails with a duplicate identifier naming the
/// registered type; one whose name is registered, with an identifier that is fresh, fails with a
/// duplicate name naming the registered type's identifier. Either way nothing of it is added.
pub proof fn lemma_duplicate_reported(
    old: Seq<Arc<TypeDefinitionInstance>>,
    batch: Seq<TypeDefinition>,
    succeeded: Seq<Arc<TypeDefinitionInstance>>,
    failed: Seq<(TypeDefinition, RegistrationError)>,
    i: int,
)
    requires
        unique_keys(old + succeeded),
        registration_outcome(old, batch, succeeded, failed),
        0 <= i < batch.len(),
    ensures
        has_id(old, batch[i].id) ==> exists|j: int, k: int|
            0 <= j < failed.len() && 0 <= k < old.len() && #[trigger] failed[j] == (
            batch[i],
            RegistrationError::DuplicateTypeDefinition { existing_name: old[k].spec_name() },
            ) && #[trigger] old[k].spec_id() == batch[i].id,
        !has_id(old, batch[i].id) && has_name(old, batch[i].name@) && unique_in_batch(batch, i)
            ==> exists|j: int, k: int|
            0 <= j < failed.len() && 0 <= k < old.len() && #[trigger] failed[j] == (
            batch[i],
            RegistrationError::DuplicateTypeDefinitionName { existing_id: old[k].spec_id() },
            ) && #[trigger] old[k].spec_name()@ == batch[i].name@,
{
    let (si, fi) = choose|si: Seq<int>, fi: Seq<int>| #[trigger] traced_outcome(old, batch, succeeded, failed, si, fi);
    lemma_trace_partition(old, batch, succeeded, failed, si, fi);
    let reg = old + succeeded;
    let d = batch[i];
    if has_id(old, d.id) || has_name(old, d.name@) {
        lemma_refused_key_fails(old, batch, succeeded, failed, i);
    }
    if has_id(old, d.id) {
        let k0 = choose|k: int| 0 <= k < old.len() && #[trigger] old[k].spec_id() == d.id;
        assert(reg[k0] == old[k0]);
        assert(!si.contains(i)) by {
            if si.contains(i) {
                let js = choose|js: int| 0 <= js < si.len() && si[js] == i;
                assert(registered_from(old + succeeded.take(js), batch[si[js]], succeeded[js]));
                assert(reg[old.len() + js] == succeeded[js]);
            }
        }
        let j = lemma_failed_at(old, batch, succeeded, failed, si, fi, i);
        lemma_has_id_extends(old, succeeded, d.id);
        match failed[j].1 {
            RegistrationError::DuplicateTypeDefinition { existing_name } => {
                let k = choose|k: int| 0 <= k < reg.len() && #[trigger] reg[k].spec_id() == d.id && reg[k].spec_name() == existing_name;
                assert(k == k0);
                assert(failed[j] == (batch[i], RegistrationError::DuplicateTypeDefinition { existing_name: old[k0].spec_name() }));
            },
            _ => {},
        }
    }
    if !has_id(old, d.id) && has_name(old, d.name@) && unique_in_batch(batch, i) {
        let k0 = choose|k: int| 0 <= k < old.len() && #[trigger] old[k].spec_name()@ == d.name@;
        assert(reg[k0] == old[k0]);
        assert(!si.contains(i)) by {
            if si.contains(i) {
                let js = choose|js: int| 0 <= js < si.len() && si[js] == i;
                assert(registered_from(old + succeeded.take(js), batch[si[js]], succeeded[js]));
                assert(reg[old.len() + js] == succeeded[js]);
            }
        }
        let j = lemma_failed_at(old, batch, succeeded, failed, si, fi, i);
        lemma_has_name_extends(old, succeeded, d.name@);
        match failed[j].1 {
            RegistrationError::DuplicateTypeDefinition { existing_name } => {
                let k = choose|k: int| 0 <= k < reg.len() && #[trigger] reg[k].spec_id() == d.id && reg[k].spec_name() == existing_name;
                assert(has_id(reg, d.id));
                let j2 = lemma_id_source(old, batch, succeeded, failed, si, fi, d.id);
                assert(si[j2] != i);
                assert(batch[si[j2]].id != d.id);
            },
            RegistrationError::DuplicateTypeDefinitionName { existing_id } => {
                let k = choose|k: int| 0 <= k < reg.len() && #[trigger] reg[k].spec_id() == existing_id && reg[k].spec_name()@ == d.name@;
                assert(k == k0);
                assert(failed[j] == (batch[i], RegistrationError::DuplicateTypeDefinitionName { existing_id: old[k0].spec_id() }));
            },
            _ => {},
        }
    }
}

/// A declaration whose identifier or name is already registered is never registered: it is
/// among the failures, and no instance with its identifier, or with its name, is added.
pub proof fn lemma_refused_key_fails(
    old: Seq<Arc<TypeDefinitionInstance>>,
    batch: Seq<TypeDefinition>,
    succeeded: Seq<Arc<TypeDefinitionInstance>>,
    failed: Seq<(TypeDefinition, RegistrationError)>,
    i: int,
)
    requires
        unique_keys(old + succeeded),
        registration_outcome(old, batch, succeeded, failed),
        0 <= i < batch.len(),
        has_id(old, batch[i].id) || has_name(old, batch[i].name@),
    ensures
        exists|j: int| 0 <= j < failed.len() && #[trigger] failed[j].0 == batch[i],
        has_id(old, batch[i].id) ==> !has_id(succeeded, batch[i].id),
        has_name(old, batch[i].name@) ==> !has_name(succeeded, batch[i].name@),
{
    let (si, fi) = choose|si: Seq<int>, fi: Seq<int>| #[trigger] traced_outcome(old, batch, succeeded, failed, si, fi);
    lemma_trace_partition(old, batch, succeeded, failed, si, fi);
    let reg = old + succeeded;
    let d = batch[i];
    if has_id(old, d.id) && has_id(succeeded, d.id) {
        let k0 = choose|k: int| 0 <= k < old.len() && #[trigger] old[k].spec_id() == d.id;
        let k1 = choose|k: int| 0 <= k < succeeded.len() && #[trigger] succeeded[k].spec_id() == d.id;
        assert(reg[k0] == old[k0]);
        assert(reg[old.len() + k1] == succeeded[k1]);
        assert(reg[k0].spec_id() == reg[old.len() + k1].spec_id());
    }
    assert(has_id(old, d.id) ==> !has_id(succeeded, d.id));
    if has_name(old, d.name@) && has_name(succeeded, d.name@) {
        let k0 = choose|k: int| 0 <= k < old.len() && #[trigger] old[k].spec_name()@ == d.name@;
        let k1 = choose|k: int| 0 <= k < succeeded.len() && #[trigger] succeeded[k].spec_name()@ == d.name@;
        assert(reg[k0] == old[k0]);
        assert(reg[old.len() + k1] == succeeded[k1]);
        assert(reg[k0].spec_id() != reg[old.len() + k1].spec_id());
    }
    assert(has_name(old, d.name@) ==> !has_name(succeeded, d.name@));
    if si.contains(i) {
        let js = choose|js: int| 0 <= js < si.len() && si[js] == i;
        assert(registered_from(old + succeeded.take(js), batch[si[js]], succeeded[js]));
        assert(succeeded[js].spec_id() == d.id);
        assert(succeeded[js].spec_name()@ == d.name@);
        assert(has_id(succeeded, d.id));
        assert(has_name(succeeded, d.name@));
        assert(false);
    }
    let j = lemma_failed_at(old, batch, succeeded, failed, si, fi, i);
}

/// The place after `k` on a cycle of `n` places.
pub open spec fn next_place(k: int, n: int) -> int {
    if k + 1 >= n {
        0
    } else {
        k + 1
    }
}

/// Whether the declarations at `members` form a pure reference cycle: each is an array of the
/// declaration at the next place, the last an array of the first.
pub open spec fn pure_cycle(batch: Seq<TypeDefinition>, members: Seq<int>) -> bool {
    &&& members.len() >= 1
    &&& forall|k: int| 0 <= k < members.len() ==> 0 <= #[trigger] members[k] < batch.len()
    &&& forall|k: int|
        0 <= k < members.len() ==> (batch[#[trigger] members[k]]).attributes is Array && refs_of(
            batch[members[k]].attributes,
        ) == seq![batch[members[next_place(k, members.len() as int)]].id]
}

/// Whether every declaration at `members` failed as circular with the cycle `c`, a simple closed
/// cycle on which every member's identifier lies; with distinct members, it holds each member once
/// and then its first again.
pub open spec fn all_circular_with(
    failed: Seq<(TypeDefinition, RegistrationError)>,
    batch: Seq<TypeDefinition>,
    members: Seq<int>,
    c: Seq<(u64, String)>,
) -> bool {
    &&& c.len() >= 2
    &&& c[0] == c[c.len() - 1]
    &&& cycle_ids(c.drop_last()).no_duplicates()
    &&& forall|k: int|
        0 <= k < members.len() ==> exists|j: int|
            0 <= j < failed.len() && #[trigger] failed[j].0 == batch[#[trigger] members[k]]
                && failed[j].1 is CircularReference && failed[j].1->cycle@ == c
    &&& forall|k: int|
        0 <= k < members.len() ==> exists|m: int|
            0 <= m < c.len() && #[trigger] c[m].0 == batch[#[trigger] members[k]].id
    &&& (members.no_duplicates() ==> c.len() == members.len() + 1)
}

/// Whether `x` is the identifier of a member.
pub open spec fn member_id(batch: Seq<TypeDefinition>, members: Seq<int>, x: u64) -> bool {
    exists|k: int| 0 <= k < members.len() && #[trigger] batch[members[k]].id == x
}

/// On a witnessed cycle through a member of a pure cycle of fresh declarations, the place after a
/// member's identifier holds a member's identifier too.
proof fn lemma_cycle_member_step(
    old: Seq<Arc<TypeDefinitionInstance>>,
    batch: Seq<TypeDefinition>,
    succeeded: Seq<Arc<TypeDefinitionInstance>>,
    failed: Seq<(TypeDefinition, RegistrationError)>,
    si: Seq<int>,
    fi: Seq<int>,
    members: Seq<int>,
    c: Seq<(u64, String)>,
    q: int,
)
    requires
        traced_outcome(old, batch, succeeded, failed, si, fi),
        pure_cycle(batch, members),
        forall|m: int| 0 <= m < members.len() ==> fresh_in(old, batch, #[trigger] members[m]),
        cycle_witnessed(failed, c),
        0 <= q < c.len() - 1,
        member_id(batch, members, c[q].0),
    ensures
        member_id(batch, members, c[q + 1].0),
{
    let k = choose|k: int| 0 <= k < members.len() && #[trigger] batch[members[k]].id == c[q].0;
    assert(has_cycle_step(failed, c, q));
    let j = choose|j: int| #[trigger] cycle_step(failed, c, q, j);
    assert(0 <= fi[j] < batch.len() && failed[j].0 == batch[fi[j]]);
    assert(fresh_in(old, batch, members[k]));
    assert(fi[j] == members[k]);
    let kn = next_place(k, members.len() as int);
    assert(refs_of(batch[members[k]].attributes) == seq![batch[members[kn]].id]);
    assert(refs_of(failed[j].0.attributes).contains(c[q + 1].0));
    assert(batch[members[kn]].id == c[q + 1].0);
}

proof fn lemma_cycle_members_from(
    batch: Seq<TypeDefinition>,
    members: Seq<int>,
    c: Seq<(u64, String)>,
    q0: int,
    q: int,
)
    requires
        forall|p: int|
            0 <= p < c.len() - 1 && member_id(batch, members, #[trigger] c[p].0) ==> member_id(
                batch,
                members,
                c[p + 1].0,
            ),
        0 <= q0 <= q < c.len(),
        member_id(batch, members, c[q0].0),
    ensures
        member_id(batch, members, c[q].0),
    decreases q - q0,
{
    if q > q0 {
        lemma_cycle_members_from(batch, members, c, q0, q - 1);
        assert(member_id(batch, members, c[q - 1].0));
    }
}

/// A witnessed cycle through the members of a pure cycle of distinct fresh declarations holds
/// each member's identifier once, and nothing else.
#[verifier::rlimit(100)]
#[verifier::spinoff_prover]
proof fn lemma_cycle_length(
    old: Seq<Arc<TypeDefinitionInstance>>,
    batch: Seq<TypeDefinition>,
    succeeded: Seq<Arc<TypeDefinitionInstance>>,
    failed: Seq<(TypeDefinition, RegistrationError)>,
    si: Seq<int>,
    fi: Seq<int>,
    members: Seq<int>,
    c: Seq<(u64, String)>,
)
    requires
        traced_outcome(old, batch, succeeded, failed, si, fi),
        pure_cycle(batch, members),
        forall|m: int| 0 <= m < members.len() ==> fresh_in(old, batch, #[trigger] members[m]),
        cycle_witnessed(failed, c),
        members.no_duplicates(),
        forall|k: int|
            0 <= k < members.len() ==> exists|m: int|
                0 <= m < c.len() && #[trigger] c[m].0 == batch[#[trigger] members[k]].id,
    ensures
        c.len() == members.len() + 1,
{
    assert forall|p: int|
        0 <= p < c.len() - 1 && member_id(batch, members, #[trigger] c[p].0) implies member_id(
            batch,
            members,
            c[p + 1].0,
        ) by {
        lemma_cycle_member_step(old, batch, succeeded, failed, si, fi, members, c, p);
    }
    let ids = members.map_values(|i: int| batch[i].id);
    assert forall|a: int, b: int| 0 <= a < ids.len() && 0 <= b < ids.len() && a != b implies ids[a] != ids[b] by {
        assert(members[a] != members[b]);
        assert(fresh_in(old, batch, members[a]));
        assert(0 <= members[b] < batch.len());
    }
    lemma_cycle_count(batch, members, c);
}

/// A simple closed cycle whose places all hold member identifiers, and on which every member's
/// identifier lies, has one place per member and the closing one.
proof fn lemma_cycle_count(batch: Seq<TypeDefinition>, members: Seq<int>, c: Seq<(u64, String)>)
    requires
        c.len() >= 2,
        c[0] == c[c.len() - 1],
        cycle_ids(c.drop_last()).no_duplicates(),
        members.len() >= 1,
        members.map_values(|i: int| batch[i].id).no_duplicates(),
        forall|p: int|
            0 <= p < c.len() - 1 && member_id(batch, members, #[trigger] c[p].0) ==> member_id(
                batch,
                members,
                c[p + 1].0,
            ),
        forall|k: int|
            0 <= k < members.len() ==> exists|m: int|
                0 <= m < c.len() && #[trigger] c[m].0 == batch[#[trigger] members[k]].id,
    ensures
        c.len() == members.len() + 1,
{
    let last = c.len() - 1;
    let ids = members.map_values(|i: int| batch[i].id);
    let cs = cycle_ids(c.drop_last());
    let m0 = choose|m: int| 0 <= m < c.len() && #[trigger] c[m].0 == batch[members[0]].id;
    assert(member_id(batch, members, c[m0].0));
    lemma_cycle_members_from(batch, members, c, m0, last);
    assert(c[0] == c[last]);
    assert forall|x: u64| cs.contains(x) <==> ids.contains(x) by {
        if cs.contains(x) {
            let q = choose|q: int| 0 <= q < cs.len() && cs[q] == x;
            if q >= m0 {
                lemma_cycle_members_from(batch, members, c, m0, q);
            } else {
                lemma_cycle_members_from(batch, members, c, 0, q);
            }
            let k = choose|k: int| 0 <= k < members.len() && #[trigger] batch[members[k]].id == c[q].0;
            assert(ids[k] == x);
        }
        if ids.contains(x) {
            let k = choose|k: int| 0 <= k < ids.len() && ids[k] == x;
            let m = choose|m: int| 0 <= m < c.len() && #[trigger] c[m].0 == batch[members[k]].id;
            if m == last {
                assert(cs[0] == x);
            } else {
                assert(cs[m] == x);
            }
        }
    }
    assert(cs.to_set() =~= ids.to_set());
    cs.unique_seq_to_set();
    ids.unique_seq_to_set();
}

/// The failure of member `k` of a pure cycle whose members are fresh: none of them is
/// registered, and each fails for unresolvable references, at its own place among the failures.
proof fn lemma_member_fails(
    old: Seq<Arc<TypeDefinitionInstance>>,
    batch: Seq<TypeDefinition>,
    succeeded: Seq<Arc<TypeDefinitionInstance>>,
    failed: Seq<(TypeDefinition, RegistrationError)>,
    si: Seq<int>,
    fi: Seq<int>,
    members: Seq<int>,
    k: int,
) -> (j: int)
    requires
        unique_keys(old + succeeded),
        traced_outcome(old, batch, succeeded, failed, si, fi),
        pure_cycle(batch, members),
        forall|m: int| 0 <= m < members.len() ==> fresh_in(old, batch, #[trigger] members[m]),
        0 <= k < members.len(),
    ensures
        0 <= j < failed.len(),
        fi[j] == members[k],
        failed[j].0 == batch[members[k]],
        is_unresolved(failed[j].1),
        unresolved_justified(old + succeeded, failed, failed[j].0, failed[j].1),
        !(failed[j].1 is BrokenReference),
{
    lemma_trace_partition(old, batch, succeeded, failed, si, fi);
    let reg = old + succeeded;
    let i = members[k];
    let d = batch[i];
    if si.contains(i) {
        let js = choose|js: int| 0 <= js < si.len() && si[js] == i;
        lemma_member_not_registered(old, batch, succeeded, failed, si, fi, members, k, js);
    }
    let j = lemma_failed_at(old, batch, succeeded, failed, si, fi, i);
    match failed[j].1 {
        RegistrationError::DuplicateTypeDefinition { existing_name } => {
            let j2 = lemma_id_source(old, batch, succeeded, failed, si, fi, d.id);
            assert(fresh_in(old, batch, i));
            assert(si[j2] == i);
            lemma_member_not_registered(old, batch, succeeded, failed, si, fi, members, k, j2);
        },
        RegistrationError::DuplicateTypeDefinitionName { existing_id } => {
            let kk = choose|kk: int| 0 <= kk < reg.len() && #[trigger] reg[kk].spec_id() == existing_id && reg[kk].spec_name()@ == d.name@;
            assert(has_name(reg, d.name@));
            let j2 = lemma_name_source(old, batch, succeeded, failed, si, fi, d.name@);
            assert(fresh_in(old, batch, i));
            assert(si[j2] == i);
            lemma_member_not_registered(old, batch, succeeded, failed, si, fi, members, k, j2);
        },
        RegistrationError::InstantiationError(_) => {},
        RegistrationError::BrokenReference { referenced_id } => {
            let kn = next_place(k, members.len() as int);
            let jn = lemma_member_fails_unresolved(old, batch, succeeded, failed, si, fi, members, kn);
            assert(refs_of(d.attributes) == seq![batch[members[kn]].id]);
            assert(failed[jn].0.id == referenced_id);
            assert(stalled(failed, referenced_id));
        },
        _ => {},
    }
    j
}

/// Member `k` of a pure cycle of fresh declarations fails for unresolvable references.
proof fn lemma_member_fails_unresolved(
    old: Seq<Arc<TypeDefinitionInstance>>,
    batch: Seq<TypeDefinition>,
    succeeded: Seq<Arc<TypeDefinitionInstance>>,
    failed: Seq<(TypeDefinition, RegistrationError)>,
    si: Seq<int>,
    fi: Seq<int>,
    members: Seq<int>,
    k: int,
) -> (j: int)
    requires
        unique_keys(old + succeeded),
        traced_outcome(old, batch, succeeded, failed, si, fi),
        pure_cycle(batch, members),
        forall|m: int| 0 <= m < members.len() ==> fresh_in(old, batch, #[trigger] members[m]),
        0 <= k < members.len(),
    ensures
        0 <= j < failed.len(),
        fi[j] == members[k],
        failed[j].0 == batch[members[k]],
        is_unresolved(failed[j].1),
{
    lemma_trace_partition(old, batch, succeeded, failed, si, fi);
    let reg = old + succeeded;
    let i = members[k];
    let d = batch[i];
    if si.contains(i) {
        let js = choose|js: int| 0 <= js < si.len() && si[js] == i;
        lemma_member_not_registered(old, batch, succeeded, failed, si, fi, members, k, js);
    }
    let j = lemma_failed_at(old, batch, succeeded, failed, si, fi, i);
    match failed[j].1 {
        RegistrationError::DuplicateTypeDefinition { existing_name } => {
            let j2 = lemma_id_source(old, batch, succeeded, failed, si, fi, d.id);
            assert(fresh_in(old, batch, i));
            assert(si[j2] == i);
            lemma_member_not_registered(old, batch, succeeded, failed, si, fi, members, k, j2);
        },
        RegistrationError::DuplicateTypeDefinitionName { existing_id } => {
            let kk = choose|kk: int| 0 <= kk < reg.len() && #[trigger] reg[kk].spec_id() == existing_id && reg[kk].spec_name()@ == d.name@;
            assert(has_name(reg, d.name@));
            let j2 = lemma_name_source(old, batch, succeeded, failed, si, fi, d.name@);
            assert(fresh_in(old, batch, i));
            assert(si[j2] == i);
            lemma_member_not_registered(old, batch, succeeded, failed, si, fi, members, k, j2);
        },
        RegistrationError::InstantiationError(_) => {},
        _ => {},
    }
    j
}

/// No member of a pure cycle of fresh declarations is registered.
proof fn lemma_member_not_registered(
    old: Seq<Arc<TypeDefinitionInstance>>,
    batch: Seq<TypeDefinition>,
    succeeded: Seq<Arc<TypeDefinitionInstance>>,
    failed: Seq<(TypeDefinition, RegistrationError)>,
    si: Seq<int>,
    fi: Seq<int>,
    members: Seq<int>,
    k: int,
    js: int,
)
    requires
        traced_outcome(old, batch, succeeded, failed, si, fi),
        pure_cycle(batch, members),
        forall|m: int| 0 <= m < members.len() ==> fresh_in(old, batch, #[trigger] members[m]),
        0 <= k < members.len(),
        0 <= js < si.len(),
    ensures
        si[js] != members[k],
    decreases js,
{
    if si[js] == members[k] {
        let kn = next_place(k, members.len() as int);
        let target = batch[members[kn]].id;
        assert(registered_from(old + succeeded.take(js), batch[si[js]], succeeded[js]));
        assert(refs_of(batch[members[k]].attributes) == seq![target]);
        assert(refs_of(batch[members[k]].attributes)[0] == target);
        let prefix = old + succeeded.take(js);
        assert(has_id(prefix, target));
        let k0 = choose|k0: int| 0 <= k0 < prefix.len() && #[trigger] prefix[k0].spec_id() == target;
        assert(fresh_in(old, batch, members[kn]));
        if k0 < old.len() {
            assert(prefix[k0] == old[k0]);
            assert(has_id(old, target));
        }
        let j2 = k0 - old.len();
        assert(prefix[k0] == succeeded[j2]);
        assert(registered_from(old + succeeded.take(j2), batch[si[j2]], succeeded[j2]));
        assert(batch[si[j2]].id == target);
        assert(0 <= si[j2] < batch.len());
        assert(si[j2] == members[kn]);
        lemma_member_not_registered(old, batch, succeeded, failed, si, fi, members, kn, j2);
    }
}

/// When a member of a pure cycle of fresh declarations fails as circular with a cycle, so does
/// the member at the next place, with the same cycle.
#[verifier::rlimit(100)]
#[verifier::spinoff_prover]
proof fn lemma_circular_spreads(
    old: Seq<Arc<TypeDefinitionInstance>>,
    batch: Seq<TypeDefinition>,
    succeeded: Seq<Arc<TypeDefinitionInstance>>,
    failed: Seq<(TypeDefinition, RegistrationError)>,
    si: Seq<int>,
    fi: Seq<int>,
    members: Seq<int>,
    k: int,
    c: Seq<(u64, String)>,
)
    requires
        unique_keys(old + succeeded),
        traced_outcome(old, batch, succeeded, failed, si, fi),
        pure_cycle(batch, members),
        forall|m: int| 0 <= m < members.len() ==> fresh_in(old, batch, #[trigger] members[m]),
        0 <= k < members.len(),
        exists|j: int|
            0 <= j < failed.len() && #[trigger] failed[j].0 == batch[members[k]]
                && failed[j].1 is CircularReference && failed[j].1->cycle@ == c,
    ensures
        exists|j: int|
            0 <= j < failed.len() && #[trigger] failed[j].0 == batch[members[next_place(k, members.len() as int)]]
                && failed[j].1 is CircularReference && failed[j].1->cycle@ == c,
{
    lemma_trace_partition(old, batch, succeeded, failed, si, fi);
    let n = members.len() as int;
    let kn = next_place(k, n);
    let reg = old + succeeded;
    let j = choose|j: int|
        0 <= j < failed.len() && #[trigger] failed[j].0 == batch[members[k]]
            && failed[j].1 is CircularReference && failed[j].1->cycle@ == c;
    assert(0 <= fi[j] < batch.len());
    assert(failure_justified(old, reg, failed, failed[j].0, failed[j].1));
    assert(unresolved_justified(reg, failed, failed[j].0, failed[j].1));
    assert(cycle_witnessed(failed, c));
    let m = choose|m: int| 0 <= m < c.len() && #[trigger] c[m].0 == batch[members[k]].id;
    let place = if m == c.len() - 1 { 0 } else { m };
    assert(c[place].0 == batch[members[k]].id);
    assert(has_cycle_step(failed, c, place));
    let ja = choose|ja: int| #[trigger] cycle_step(failed, c, place, ja);
    assert(0 <= fi[ja] < batch.len() && failed[ja].0 == batch[fi[ja]]);
    assert(fresh_in(old, batch, members[k]));
    assert(fi[ja] == members[k]);
    assert(refs_of(batch[members[k]].attributes) == seq![batch[members[kn]].id]);
    assert(refs_of(failed[ja].0.attributes).contains(c[place + 1].0));
    assert(c[place + 1].0 == batch[members[kn]].id);
    let place_next = if place + 1 == c.len() - 1 { 0 } else { place + 1 };
    assert(c[place_next].0 == batch[members[kn]].id);
    assert(has_cycle_step(failed, c, place_next));
    let jb = choose|jb: int| #[trigger] cycle_step(failed, c, place_next, jb);
    assert(0 <= fi[jb] < batch.len() && failed[jb].0 == batch[fi[jb]]);
    assert(fresh_in(old, batch, members[kn]));
    assert(fi[jb] == members[kn]);
    assert(failed[jb].0 == batch[members[kn]]);
}

/// Members from place `k` to the end fail as circular with `c`, when member `k` does.
proof fn lemma_circular_upward(
    old: Seq<Arc<TypeDefinitionInstance>>,
    batch: Seq<TypeDefinition>,
    succeeded: Seq<Arc<TypeDefinitionInstance>>,
    failed: Seq<(TypeDefinition, RegistrationError)>,
    si: Seq<int>,
    fi: Seq<int>,
    members: Seq<int>,
    k: int,
    c: Seq<(u64, String)>,
    t: int,
)
    requires
        unique_keys(old + succeeded),
        traced_outcome(old, batch, succeeded, failed, si, fi),
        pure_cycle(batch, members),
        forall|m: int| 0 <= m < members.len() ==> fresh_in(old, batch, #[trigger] members[m]),
        0 <= k <= t < members.len(),
        exists|j: int|
            0 <= j < failed.len() && #[trigger] failed[j].0 == batch[members[k]]
                && failed[j].1 is CircularReference && failed[j].1->cycle@ == c,
    ensures
        exists|j: int|
            0 <= j < failed.len() && #[trigger] failed[j].0 == batch[members[t]]
                && failed[j].1 is CircularReference && failed[j].1->cycle@ == c,
    decreases t - k,
{
    if t > k {
        lemma_circular_upward(old, batch, succeeded, failed, si, fi, members, k, c, t - 1);
        lemma_circular_spreads(old, batch, succeeded, failed, si, fi, members, t - 1, c);
    }
}

/// A pure reference cycle of declarations with fresh identifiers and names fails as a whole:
/// every member fails as circular, all with the same cycle.
pub proof fn lemma_pure_cycle_circular(
    old: Seq<Arc<TypeDefinitionInstance>>,
    batch: Seq<TypeDefinition>,
    succeeded: Seq<Arc<TypeDefinitionInstance>>,
    failed: Seq<(TypeDefinition, RegistrationError)>,
    members: Seq<int>,
)
    requires
        unique_keys(old + succeeded),
        registration_outcome(old, batch, succeeded, failed),
        pure_cycle(batch, members),
        forall|m: int| 0 <= m < members.len() ==> fresh_in(old, batch, #[trigger] members[m]),
    ensures
        exists|c: Seq<(u64, String)>| #[trigger] all_circular_with(failed, batch, members, c),
{
    let (si, fi) = choose|si: Seq<int>, fi: Seq<int>| #[trigger] traced_outcome(old, batch, succeeded, failed, si, fi);
    lemma_trace_partition(old, batch, succeeded, failed, si, fi);
    let n = members.len() as int;
    if exists|k: int, j: int|
        0 <= k < n && 0 <= j < failed.len() && #[trigger] failed[j].0 == batch[#[trigger] members[k]]
            && failed[j].1 is CircularReference {
        let (k, j) = choose|k: int, j: int|
            0 <= k < n && 0 <= j < failed.len() && #[trigger] failed[j].0 == batch[#[trigger] members[k]]
                && failed[j].1 is CircularReference;
        let c = failed[j].1->cycle@;
        lemma_circular_upward(old, batch, succeeded, failed, si, fi, members, k, c, n - 1);
        lemma_circular_spreads(old, batch, succeeded, failed, si, fi, members, n - 1, c);
        assert forall|t: int| 0 <= t < n implies exists|j: int|
            0 <= j < failed.len() && #[trigger] failed[j].0 == batch[#[trigger] members[t]]
                && failed[j].1 is CircularReference && failed[j].1->cycle@ == c by {
            if t >= k {
                lemma_circular_upward(old, batch, succeeded, failed, si, fi, members, k, c, t);
            } else {
                lemma_circular_upward(old, batch, succeeded, failed, si, fi, members, 0, c, t);
            }
        }
        assert(0 <= fi[j] < batch.len());
        assert(failure_justified(old, old + succeeded, failed, failed[j].0, failed[j].1));
        assert(cycle_witnessed(failed, c));
        assert forall|t: int| 0 <= t < n implies exists|m: int|
            0 <= m < c.len() && #[trigger] c[m].0 == batch[#[trigger] members[t]].id by {
            assert(exists|jt: int|
                0 <= jt < failed.len() && #[trigger] failed[jt].0 == batch[members[t]]
                    && failed[jt].1 is CircularReference && failed[jt].1->cycle@ == c);
            let jt = choose|jt: int|
                0 <= jt < failed.len() && #[trigger] failed[jt].0 == batch[members[t]]
                    && failed[jt].1 is CircularReference && failed[jt].1->cycle@ == c;
            assert(0 <= fi[jt] < batch.len());
            assert(failure_justified(old, old + succeeded, failed, failed[jt].0, failed[jt].1));
        }
        if members.no_duplicates() {
            lemma_cycle_length(old, batch, succeeded, failed, si, fi, members, c);
        }
        assert(all_circular_with(failed, batch, members, c));
    } else {
        assert(blocked_acyclic(failed));
        let rank = choose|rank: spec_fn(u64) -> nat| #[trigger] blocked_ranked_by(failed, rank);
        lemma_rank_falls(old, batch, succeeded, failed, si, fi, members, rank, n - 1);
        lemma_member_blocked_step(old, batch, succeeded, failed, si, fi, members, rank, n - 1);
        assert(next_place(n - 1, n) == 0);
    }
}

/// Along a pure cycle of fresh declarations none of which fails as circular, the ranking of the
/// blocked declarations falls by at least one per place.
proof fn lemma_rank_falls(
    old: Seq<Arc<TypeDefinitionInstance>>,
    batch: Seq<TypeDefinition>,
    succeeded: Seq<Arc<TypeDefinitionInstance>>,
    failed: Seq<(TypeDefinition, RegistrationError)>,
    si: Seq<int>,
    fi: Seq<int>,
    members: Seq<int>,
    rank: spec_fn(u64) -> nat,
    t: int,
)
    requires
        unique_keys(old + succeeded),
        traced_outcome(old, batch, succeeded, failed, si, fi),
        pure_cycle(batch, members),
        forall|m: int| 0 <= m < members.len() ==> fresh_in(old, batch, #[trigger] members[m]),
        !exists|k: int, j: int|
            0 <= k < members.len() && 0 <= j < failed.len() && #[trigger] failed[j].0 == batch[#[trigger] members[k]]
                && failed[j].1 is CircularReference,
        blocked_ranked_by(failed, rank),
        0 <= t < members.len(),
    ensures
        rank(batch[members[t]].id) + t <= rank(batch[members[0]].id),
    decreases t,
{
    if t > 0 {
        lemma_rank_falls(old, batch, succeeded, failed, si, fi, members, rank, t - 1);
        lemma_member_blocked_step(old, batch, succeeded, failed, si, fi, members, rank, t - 1);
    }
}

/// A member of a pure cycle of fresh declarations none of which fails as circular is blocked,
/// and ranks above the member at the next place.
proof fn lemma_member_blocked_step(
    old: Seq<Arc<TypeDefinitionInstance>>,
    batch: Seq<TypeDefinition>,
    succeeded: Seq<Arc<TypeDefinitionInstance>>,
    failed: Seq<(TypeDefinition, RegistrationError)>,
    si: Seq<int>,
    fi: Seq<int>,
    members: Seq<int>,
    rank: spec_fn(u64) -> nat,
    k: int,
)
    requires
        unique_keys(old + succeeded),
        traced_outcome(old, batch, succeeded, failed, si, fi),
        pure_cycle(batch, members),
        forall|m: int| 0 <= m < members.len() ==> fresh_in(old, batch, #[trigger] members[m]),
        !exists|k: int, j: int|
            0 <= k < members.len() && 0 <= j < failed.len() && #[trigger] failed[j].0 == batch[#[trigger] members[k]]
                && failed[j].1 is CircularReference,
        blocked_ranked_by(failed, rank),
        0 <= k < members.len(),
    ensures
        rank(batch[members[next_place(k, members.len() as int)]].id) < rank(batch[members[k]].id),
{
    lemma_trace_partition(old, batch, succeeded, failed, si, fi);
    let n = members.len() as int;
    let kn = next_place(k, n);
    let j1 = lemma_member_fails(old, batch, succeeded, failed, si, fi, members, k);
    let j2 = lemma_member_fails(old, batch, succeeded, failed, si, fi, members, kn);
    assert(!(failed[j1].1 is CircularReference));
    assert(!(failed[j2].1 is CircularReference));
    assert(failed[j1].1 is BlockedReference);
    assert(failed[j2].1 is BlockedReference);
    assert(fresh_in(old, batch, members[k]));
    assert forall|j0: int| 0 <= j0 < j1 implies !((#[trigger] failed[j0]).1 is BlockedReference && failed[j0].0.id
        == failed[j1].0.id) by {
        if failed[j0].0.id == failed[j1].0.id {
            assert(0 <= fi[j0] < batch.len() && failed[j0].0 == batch[fi[j0]]);
            assert(fi[j0] == members[k]);
            assert(fi[j0] != fi[j1]);
        }
    }
    assert(first_blocked(failed, j1));
    assert(refs_of(batch[members[k]].attributes) == seq![batch[members[kn]].id]);
    assert(refs_of(failed[j1].0.attributes).contains(failed[j2].0.id)) by {
        assert(refs_of(failed[j1].0.attributes)[0] == failed[j2].0.id);
    }
}

} // verus!
