//! The two internal fields that metering keeps in every instance: the points
//! used so far, and the limit. The runtime stores them; this module hands them
//! out and reads and writes them, for an instance or for the context of a call.

use vstd::prelude::*;
use wasmer_runtime_core::vm::{Ctx, InternalField};
use wasmer_runtime_core::Instance;

verus! {

/// `wasmer_runtime_core::vm::InternalField`: the handle of one internal field.
#[verifier::external_type_specification]
#[verifier::external_body]
pub struct ExInternalField(wasmer_runtime_core::vm::InternalField);

/// `wasmer_runtime_core::Instance`: an instantiated module.
#[verifier::external_type_specification]
#[verifier::external_body]
pub struct ExInstance(wasmer_runtime_core::Instance);

/// `wasmer_runtime_core::vm::Ctx`: what a running call sees of its instance.
#[verifier::external_type_specification]
#[verifier::external_body]
pub struct ExCtx(wasmer_runtime_core::vm::Ctx);

/// The number of internal fields that the runtime keeps for an instance.
pub const INTERNALS_SIZE: usize = 256;

/// The slot that the runtime gives to `field` when the field is first used,
/// and keeps for it from then on.
pub uninterp spec fn field_index(field: InternalField) -> usize;

/// The value that `instance` holds in the slot `index` of its internal fields.
/// The runtime changes it when `set_internal` is called, and while code of the
/// instance runs; the library runs none.
pub uninterp spec fn instance_internal(instance: Instance, index: usize) -> u64;

/// The value that `ctx` holds in the slot `index` of its internal fields: those
/// of the instance that the context belongs to.
pub uninterp spec fn ctx_internal(ctx: Ctx, index: usize) -> u64;

/// Calls `InternalField::allocate`, which makes a field that has no slot yet.
/// Nothing is claimed of it.
#[verifier::external_body]
fn allocate_field() -> InternalField {
    InternalField::allocate()
}

/// Calls `InternalField::index` on each of two fields and hands the fields
/// back. Claimed: each result is the slot of its field, the same at every
/// call, and lies below the number of slots; and the two slots differ, because
/// a field takes the next free slot of the process at its first use and no
/// slot is given twice. (The runtime aborts when a field asks for a slot and
/// all are taken.)
#[verifier::external_body]
fn index_both(used: InternalField, limit: InternalField) -> (indexed: (
    InternalField,
    usize,
    InternalField,
    usize,
))
    ensures
        indexed.0 == used,
        indexed.2 == limit,
        indexed.1 == field_index(used),
        indexed.3 == field_index(limit),
        indexed.1 < INTERNALS_SIZE,
        indexed.3 < INTERNALS_SIZE,
        indexed.1 != indexed.3,
{
    let used_index = used.index();
    let limit_index = limit.index();
    (used, used_index, limit, limit_index)
}

/// Calls `Instance::get_internal`. Claimed: the result is what the instance
/// holds in the slot of the field.
#[verifier::external_body]
fn instance_get_internal(instance: &Instance, field: &InternalField) -> (value: u64)
    ensures
        value == instance_internal(*instance, field_index(*field)),
{
    instance.get_internal(field)
}

/// Calls `Instance::set_internal`. Claimed: the slot of the field then holds
/// `value`, and every other slot what it held.
#[verifier::external_body]
fn instance_set_internal(instance: &mut Instance, field: &InternalField, value: u64)
    ensures
        forall|index: usize|
            instance_internal(*final(instance), index) == (if index == field_index(*field) {
                value
            } else {
                instance_internal(*old(instance), index)
            }),
{
    instance.set_internal(field, value)
}

/// Calls `Ctx::get_internal`. Claimed: the result is what the context holds in
/// the slot of the field.
#[verifier::external_body]
fn ctx_get_internal(ctx: &Ctx, field: &InternalField) -> (value: u64)
    ensures
        value == ctx_internal(*ctx, field_index(*field)),
{
    ctx.get_internal(field)
}

/// Calls `Ctx::set_internal`. Claimed: the slot of the field then holds
/// `value`, and every other slot what it held.
#[verifier::external_body]
fn ctx_set_internal(ctx: &mut Ctx, field: &InternalField, value: u64)
    ensures
        forall|index: usize|
            ctx_internal(*final(ctx), index) == (if index == field_index(*field) {
                value
            } else {
                ctx_internal(*old(ctx), index)
            }),
{
    ctx.set_internal(field, value)
}

/// The field for the points used and the field for the limit, with their
/// slots. The two slots differ.
pub struct MeteringFields {
    used: InternalField,
    limit: InternalField,
    used_index: u32,
    limit_index: u32,
}

impl MeteringFields {
    #[verifier::type_invariant]
    spec fn well_formed(self) -> bool {
        &&& self.used_index == field_index(self.used)
        &&& self.limit_index == field_index(self.limit)
        &&& self.used_index != self.limit_index
    }

    /// The slot of the points used.
    pub closed spec fn used_slot(self) -> u32 {
        self.used_index
    }

    /// The slot of the limit.
    pub closed spec fn limit_slot(self) -> u32 {
        self.limit_index
    }

    /// Takes `used` for the points used and `limit` for the limit, and has the
    /// runtime give each its slot if it has none yet.
    ///
    /// The runtime has 256 slots for all fields of a process. It aborts the
    /// process when a field asks for a slot and none is left.
    pub fn from_fields(used: InternalField, limit: InternalField) -> (fields: MeteringFields)
        ensures
            fields.used_slot() == field_index(used),
            fields.limit_slot() == field_index(limit),
            fields.used_slot() != fields.limit_slot(),
            fields.used_slot() < INTERNALS_SIZE,
            fields.limit_slot() < INTERNALS_SIZE,
    {
        let (used, used_index, limit, limit_index) = index_both(used, limit);
        MeteringFields {
            used,
            limit,
            used_index: used_index as u32,
            limit_index: limit_index as u32,
        }
    }

    /// Two new fields with their slots. Call it once in a process and keep the
    /// result: every call takes two more of the runtime's 256 slots, and the
    /// runtime aborts the process when none is left, so the 129th call in one
    /// process does not return.
    pub fn allocate() -> (fields: MeteringFields)
        ensures
            fields.used_slot() != fields.limit_slot(),
            fields.used_slot() < INTERNALS_SIZE,
            fields.limit_slot() < INTERNALS_SIZE,
    {
        Self::from_fields(allocate_field(), allocate_field())
    }

    /// The slot of the points used: the index that `GetInternal` and
    /// `SetInternal` take for it.
    pub fn used_index(&self) -> (index: u32)
        ensures
            index == self.used_slot(),
            index != self.limit_slot(),
    {
        proof {
            use_type_invariant(self);
        }
        self.used_index
    }

    /// The slot of the limit.
    pub fn limit_index(&self) -> (index: u32)
        ensures
            index == self.limit_slot(),
            index != self.used_slot(),
    {
        proof {
            use_type_invariant(self);
        }
        self.limit_index
    }
}

/// The points that `instance` has used.
pub open spec fn points_used(instance: Instance, fields: MeteringFields) -> u64 {
    instance_internal(instance, fields.used_slot() as usize)
}

/// The limit of `instance`.
pub open spec fn execution_limit(instance: Instance, fields: MeteringFields) -> u64 {
    instance_internal(instance, fields.limit_slot() as usize)
}

/// The points used, as the context of a call holds them.
pub open spec fn points_used_ctx(ctx: Ctx, fields: MeteringFields) -> u64 {
    ctx_internal(ctx, fields.used_slot() as usize)
}

/// The limit, as the context of a call holds it.
pub open spec fn execution_limit_ctx(ctx: Ctx, fields: MeteringFields) -> u64 {
    ctx_internal(ctx, fields.limit_slot() as usize)
}

/// Returns the number of points used by an instance.
pub fn get_points_used(instance: &Instance, fields: &MeteringFields) -> (points: u64)
    ensures
        points == points_used(*instance, *fields),
{
    proof {
        use_type_invariant(fields);
    }
    instance_get_internal(instance, &fields.used)
}

/// Sets the number of points used by an instance. Nothing else changes; the
/// limit stays.
pub fn set_points_used(instance: &mut Instance, value: u64, fields: &MeteringFields)
    ensures
        points_used(*final(instance), *fields) == value,
        execution_limit(*final(instance), *fields) == execution_limit(*old(instance), *fields),
        forall|index: usize|
            index != fields.used_slot() ==> instance_internal(*final(instance), index)
                == instance_internal(*old(instance), index),
{
    proof {
        use_type_invariant(fields);
    }
    instance_set_internal(instance, &fields.used, value);
}

/// Returns the number of points used, from the context of a call.
pub fn get_points_used_ctx(ctx: &Ctx, fields: &MeteringFields) -> (points: u64)
    ensures
        points == points_used_ctx(*ctx, *fields),
{
    proof {
        use_type_invariant(fields);
    }
    ctx_get_internal(ctx, &fields.used)
}

/// Sets the number of points used, in the context of a call. Nothing else
/// changes; the limit stays.
pub fn set_points_used_ctx(ctx: &mut Ctx, value: u64, fields: &MeteringFields)
    ensures
        points_used_ctx(*final(ctx), *fields) == value,
        execution_limit_ctx(*final(ctx), *fields) == execution_limit_ctx(*old(ctx), *fields),
        forall|index: usize|
            index != fields.used_slot() ==> ctx_internal(*final(ctx), index) == ctx_internal(
                *old(ctx),
                index,
            ),
{
    proof {
        use_type_invariant(fields);
    }
    ctx_set_internal(ctx, &fields.used, value);
}

/// Sets the limit of an instance. Nothing else changes; the points used stay.
pub fn set_execution_limit(instance: &mut Instance, limit: u64, fields: &MeteringFields)
    ensures
        execution_limit(*final(instance), *fields) == limit,
        points_used(*final(instance), *fields) == points_used(*old(instance), *fields),
        forall|index: usize|
            index != fields.limit_slot() ==> instance_internal(*final(instance), index)
                == instance_internal(*old(instance), index),
{
    proof {
        use_type_invariant(fields);
    }
    instance_set_internal(instance, &fields.limit, limit);
}

/// Sets the limit, in the context of a call. Nothing else changes; the points
/// used stay.
pub fn set_execution_limit_ctx(ctx: &mut Ctx, limit: u64, fields: &MeteringFields)
    ensures
        execution_limit_ctx(*final(ctx), *fields) == limit,
        points_used_ctx(*final(ctx), *fields) == points_used_ctx(*old(ctx), *fields),
        forall|index: usize|
            index != fields.limit_slot() ==> ctx_internal(*final(ctx), index) == ctx_internal(
                *old(ctx),
                index,
            ),
{
    proof {
        use_type_invariant(fields);
    }
    ctx_set_internal(ctx, &fields.limit, limit);
}

/// Returns the limit of an instance.
pub fn get_execution_limit(instance: &Instance, fields: &MeteringFields) -> (limit: u64)
    ensures
        limit == execution_limit(*instance, *fields),
{
    proof {
        use_type_invariant(fields);
    }
    instance_get_internal(instance, &fields.limit)
}

/// Returns the limit, from the context of a call.
pub fn get_execution_limit_ctx(ctx: &Ctx, fields: &MeteringFields) -> (limit: u64)
    ensures
        limit == execution_limit_ctx(*ctx, *fields),
{
    proof {
        use_type_invariant(fields);
    }
    ctx_get_internal(ctx, &fields.limit)
}

} // verus!
