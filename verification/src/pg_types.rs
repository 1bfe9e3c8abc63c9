//! PostgreSQL type identifiers (`pg_type.oid`) that the library tells apart.

use vstd::prelude::*;

verus! {

/// An object identifier, as PostgreSQL stores it.
pub type Oid = u32;

pub const INVALID_OID: u32 = 0;

pub const BOOLOID: u32 = 16;

pub const BYTEAOID: u32 = 17;

pub const CHAROID: u32 = 18;

pub const NAMEOID: u32 = 19;

pub const INT8OID: u32 = 20;

pub const INT2OID: u32 = 21;

pub const INT4OID: u32 = 23;

pub const TEXTOID: u32 = 25;

pub const FLOAT4OID: u32 = 700;

pub const FLOAT8OID: u32 = 701;

pub const BPCHAROID: u32 = 1042;

pub const VARCHAROID: u32 = 1043;

pub const DATEOID: u32 = 1082;

pub const TIMESTAMPOID: u32 = 1114;

pub const TIMESTAMPTZOID: u32 = 1184;

pub const INTERVALOID: u32 = 1186;

pub const NUMERICOID: u32 = 1700;

pub const JSONBOID: u32 = 3802;

/// The default collation, `pg_collation.oid` of `"default"`.
pub const DEFAULT_COLLATION_OID: u32 = 100;

/// `smallint`, `integer` or `bigint`.
pub open spec fn is_integer_oid(t: u32) -> bool {
    t == INT2OID || t == INT4OID || t == INT8OID
}

/// `real` or `double precision`.
pub open spec fn is_float_oid(t: u32) -> bool {
    t == FLOAT4OID || t == FLOAT8OID
}

/// `date`, `timestamp` or `timestamptz`.
pub open spec fn is_temporal_oid(t: u32) -> bool {
    t == DATEOID || t == TIMESTAMPOID || t == TIMESTAMPTZOID
}

/// `text`, `varchar` or `bpchar`: the string types with the layout of `text`.
pub open spec fn is_string_oid(t: u32) -> bool {
    t == TEXTOID || t == VARCHAROID || t == BPCHAROID
}

pub fn is_integer_type(t: u32) -> (r: bool)
    ensures
        r == is_integer_oid(t),
{
    t == INT2OID || t == INT4OID || t == INT8OID
}

pub fn is_float_type(t: u32) -> (r: bool)
    ensures
        r == is_float_oid(t),
{
    t == FLOAT4OID || t == FLOAT8OID
}

pub fn is_temporal_type(t: u32) -> (r: bool)
    ensures
        r == is_temporal_oid(t),
{
    t == DATEOID || t == TIMESTAMPOID || t == TIMESTAMPTZOID
}

pub fn is_string_type(t: u32) -> (r: bool)
    ensures
        r == is_string_oid(t),
{
    t == TEXTOID || t == VARCHAROID || t == BPCHAROID
}

} // verus!
