//! What a foreign-function layer decides before and after it calls into the
//! runtime: which arguments it turns down, what it reports, and what a
//! missing handle stands for.

use crate::fields::{
    ctx_internal, execution_limit, execution_limit_ctx, get_points_used, get_points_used_ctx,
    instance_internal, points_used, points_used_ctx, set_points_used, set_points_used_ctx,
    MeteringFields,
};
use vstd::prelude::*;
use wasmer_runtime_core::vm::Ctx;
use wasmer_runtime_core::Instance;

verus! {

/// Why compiling with metering failed.
#[derive(Clone, Copy, Debug, PartialEq, Eq, Structural)]
pub enum CompileFailure {
    /// No place was given to put the module.
    ModuleIsNull,
    /// No bytes were given to compile.
    WasmBytesIsNull,
    /// The decoder or the code generator turned the bytes down.
    CompileError,
}

impl CompileFailure {
    /// What [`CompileFailure::message`] says.
    pub open spec fn text(self) -> Seq<char> {
        match self {
            CompileFailure::ModuleIsNull => "module is null"@,
            CompileFailure::WasmBytesIsNull => "wasm bytes is null"@,
            CompileFailure::CompileError => "compile error"@,
        }
    }

    /// The text that is left as the last error.
    pub fn message(&self) -> (message: String)
        ensures
            message@ == self.text(),
    {
        match self {
            CompileFailure::ModuleIsNull => "module is null".to_owned(),
            CompileFailure::WasmBytesIsNull => "wasm bytes is null".to_owned(),
            CompileFailure::CompileError => "compile error".to_owned(),
        }
    }
}

/// Turns down a call that gives no place for the module, and then one that
/// gives no bytes.
pub fn check_compile_arguments(module_is_null: bool, wasm_bytes_is_null: bool) -> (r: Result<
    (),
    CompileFailure,
>)
    ensures
        r == (if module_is_null {
            Err::<(), CompileFailure>(CompileFailure::ModuleIsNull)
        } else if wasm_bytes_is_null {
            Err::<(), CompileFailure>(CompileFailure::WasmBytesIsNull)
        } else {
            Ok::<(), CompileFailure>(())
        }),
{
    if module_is_null {
        Err(CompileFailure::ModuleIsNull)
    } else if wasm_bytes_is_null {
        Err(CompileFailure::WasmBytesIsNull)
    } else {
        Ok(())
    }
}

/// The outcome of compiling, once the compiler has answered: a module, or the
/// one failure that is reported for whatever the compiler said.
pub fn compile_outcome<M, E>(compiled: Result<M, E>) -> (r: Result<M, CompileFailure>)
    ensures
        r == (match compiled {
            Ok(module) => Ok::<M, CompileFailure>(module),
            Err(_) => Err::<M, CompileFailure>(CompileFailure::CompileError),
        }),
{
    match compiled {
        Ok(module) => Ok(module),
        Err(_) => Err(CompileFailure::CompileError),
    }
}

/// The points used by the instance behind a handle; zero if there is none.
pub fn instance_points_used(instance: Option<&Instance>, fields: &MeteringFields) -> (points: u64)
    ensures
        points == (match instance {
            Some(instance) => points_used(*instance, *fields),
            None => 0,
        }),
{
    match instance {
        Some(instance) => get_points_used(instance, fields),
        None => 0,
    }
}

/// The points used in the context behind a handle; zero if there is none.
pub fn context_points_used(ctx: Option<&Ctx>, fields: &MeteringFields) -> (points: u64)
    ensures
        points == (match ctx {
            Some(ctx) => points_used_ctx(*ctx, *fields),
            None => 0,
        }),
{
    match ctx {
        Some(ctx) => get_points_used_ctx(ctx, fields),
        None => 0,
    }
}

/// Sets the points used by the instance behind a handle; does nothing if
/// there is none.
pub fn instance_set_points_used(
    instance: Option<&mut Instance>,
    new_gas: u64,
    fields: &MeteringFields,
)
    ensures
        instance matches Some(target) ==> points_used(*final(target), *fields) == new_gas
            && execution_limit(*final(target), *fields) == execution_limit(*target, *fields),
        instance matches Some(target) ==> forall|index: usize|
            index != fields.used_slot() ==> instance_internal(*final(target), index)
                == instance_internal(*target, index),
{
    match instance {
        Some(instance) => set_points_used(instance, new_gas, fields),
        None => {},
    }
}

/// Sets the points used in the context behind a handle; does nothing if
/// there is none.
pub fn context_set_points_used(ctx: Option<&mut Ctx>, new_gas: u64, fields: &MeteringFields)
    ensures
        ctx matches Some(target) ==> points_used_ctx(*final(target), *fields) == new_gas
            && execution_limit_ctx(*final(target), *fields) == execution_limit_ctx(
            *target,
            *fields,
        ),
        ctx matches Some(target) ==> forall|index: usize|
            index != fields.used_slot() ==> ctx_internal(*final(target), index) == ctx_internal(
                *target,
                index,
            ),
{
    match ctx {
        Some(ctx) => set_points_used_ctx(ctx, new_gas, fields),
        None => {},
    }
}

} // verus!
