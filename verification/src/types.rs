//! The column type lattice: type tags, and the merge operation that widens
//! two tags to their least general common supertype.

use vstd::prelude::*;

use crate::ext::{date_matches, date_parses, datetime_matches, datetime_parses};
use crate::scan::{
    fits_real32, fits_real64, int_literal_value, is_bool_token, is_int_literal, is_null_token,
    scan_bool, scan_int, scan_null, scan_real32, scan_real64,
};

verus! {

/// Whether the text matches one of the fixed date-and-time layouts.
pub open spec fn is_timestamp_text(s: Seq<char>) -> bool {
    ||| datetime_matches(s, "%Y-%m-%d %H:%M:%S"@)
    ||| datetime_matches(s, "%Y-%m-%d %H:%M:%S%.f"@)
    ||| datetime_matches(s, "%Y-%m-%dT%H:%M:%S"@)
    ||| datetime_matches(s, "%Y-%m-%dT%H:%M:%S%.f"@)
    ||| datetime_matches(s, "%Y/%m/%d %H:%M:%S"@)
    ||| datetime_matches(s, "%d-%m-%Y %H:%M:%S"@)
    ||| datetime_matches(s, "%m/%d/%Y %H:%M:%S"@)
}

/// Whether the text matches one of the fixed date-only layouts.
pub open spec fn is_date_text(s: Seq<char>) -> bool {
    ||| date_matches(s, "%Y-%m-%d"@)
    ||| date_matches(s, "%Y/%m/%d"@)
    ||| date_matches(s, "%d-%m-%Y"@)
    ||| date_matches(s, "%m/%d/%Y"@)
    ||| date_matches(s, "%d/%m/%Y"@)
}

/// The tag a single text value is inferred as: the first match in a strict
/// order of null markers, booleans, integers from narrowest to widest, real
/// numbers, timestamps, dates; anything else is text.
pub open spec fn spec_infer(s: Seq<char>) -> SqlType {
    if is_null_token(s) {
        SqlType::Null
    } else if is_bool_token(s) {
        SqlType::Boolean
    } else if is_int_literal(s) && -32768 <= int_literal_value(s) <= 32767 {
        SqlType::SmallInt
    } else if is_int_literal(s) && -2147483648 <= int_literal_value(s) <= 2147483647 {
        SqlType::Integer
    } else if is_int_literal(s) && -9223372036854775808 <= int_literal_value(s)
        <= 9223372036854775807 {
        SqlType::BigInt
    } else if fits_real32(s) {
        SqlType::Real
    } else if fits_real64(s) {
        SqlType::DoublePrecision
    } else if is_timestamp_text(s) {
        SqlType::Timestamp
    } else if is_date_text(s) {
        SqlType::Date
    } else {
        SqlType::Text
    }
}

/// A SQL column type that can be inferred from sampled text values.
///
/// `Null` is the absorbing-minimal tag (it never overrides evidence) and
/// `Text` is the absorbing-maximal tag (anything merged with it stays text).
#[derive(Debug, Clone, Copy, PartialEq, Eq, PartialOrd, Ord, Structural)]
pub enum SqlType {
    Null,
    Boolean,
    SmallInt,
    Integer,
    BigInt,
    Real,
    DoublePrecision,
    Timestamp,
    Date,
    Text,
}

impl SqlType {
    /// The promotion table: the least general tag that covers both operands.
    pub open spec fn spec_merge(self, other: SqlType) -> SqlType {
        match (self, other) {
            (SqlType::Text, _) | (_, SqlType::Text) => SqlType::Text,
            (SqlType::Null, x) | (x, SqlType::Null) => x,
            (SqlType::Boolean, SqlType::Boolean) => SqlType::Boolean,
            (SqlType::SmallInt, SqlType::SmallInt) => SqlType::SmallInt,
            (SqlType::SmallInt, SqlType::Integer)
                | (SqlType::Integer, SqlType::SmallInt)
                | (SqlType::Integer, SqlType::Integer) => SqlType::Integer,
            (SqlType::SmallInt, SqlType::BigInt)
                | (SqlType::BigInt, SqlType::SmallInt)
                | (SqlType::Integer, SqlType::BigInt)
                | (SqlType::BigInt, SqlType::Integer)
                | (SqlType::BigInt, SqlType::BigInt) => SqlType::BigInt,
            (
                SqlType::SmallInt | SqlType::Integer | SqlType::BigInt,
                SqlType::Real | SqlType::DoublePrecision,
            )
                | (
                SqlType::Real | SqlType::DoublePrecision,
                SqlType::SmallInt | SqlType::Integer | SqlType::BigInt,
            ) => SqlType::DoublePrecision,
            (SqlType::Real, SqlType::Real) => SqlType::Real,
            (SqlType::Real, SqlType::DoublePrecision)
                | (SqlType::DoublePrecision, SqlType::Real)
                | (SqlType::DoublePrecision, SqlType::DoublePrecision) => SqlType::DoublePrecision,
            (SqlType::Date, SqlType::Date) => SqlType::Date,
            (SqlType::Timestamp, SqlType::Timestamp)
                | (SqlType::Date, SqlType::Timestamp)
                | (SqlType::Timestamp, SqlType::Date) => SqlType::Timestamp,
            _ => SqlType::Text,
        }
    }

    /// Merge two tags to the most general type, following the promotion table.
    pub fn merge(&self, other: &SqlType) -> (r: SqlType)
        ensures
            r == self.spec_merge(*other),
    {
        match (self, other) {
            (SqlType::Text, _) | (_, SqlType::Text) => SqlType::Text,
            (SqlType::Null, x) | (x, SqlType::Null) => *x,
            (SqlType::Boolean, SqlType::Boolean) => SqlType::Boolean,
            (SqlType::SmallInt, SqlType::SmallInt) => SqlType::SmallInt,
            (SqlType::SmallInt, SqlType::Integer)
                | (SqlType::Integer, SqlType::SmallInt)
                | (SqlType::Integer, SqlType::Integer) => SqlType::Integer,
            (SqlType::SmallInt, SqlType::BigInt)
                | (SqlType::BigInt, SqlType::SmallInt)
                | (SqlType::Integer, SqlType::BigInt)
                | (SqlType::BigInt, SqlType::Integer)
                | (SqlType::BigInt, SqlType::BigInt) => SqlType::BigInt,
            (
                SqlType::SmallInt | SqlType::Integer | SqlType::BigInt,
                SqlType::Real | SqlType::DoublePrecision,
            )
                | (
                SqlType::Real | SqlType::DoublePrecision,
                SqlType::SmallInt | SqlType::Integer | SqlType::BigInt,
            ) => SqlType::DoublePrecision,
            (SqlType::Real, SqlType::Real) => SqlType::Real,
            (SqlType::Real, SqlType::DoublePrecision)
                | (SqlType::DoublePrecision, SqlType::Real)
                | (SqlType::DoublePrecision, SqlType::DoublePrecision) => SqlType::DoublePrecision,
            (SqlType::Date, SqlType::Date) => SqlType::Date,
            (SqlType::Timestamp, SqlType::Timestamp)
                | (SqlType::Date, SqlType::Timestamp)
                | (SqlType::Timestamp, SqlType::Date) => SqlType::Timestamp,
            _ => SqlType::Text,
        }
    }

    /// The SQL name this tag renders as in DDL; a column that stayed `Null`
    /// renders as `TEXT`.
    pub open spec fn spec_sql_name(self) -> Seq<char> {
        match self {
            SqlType::Null => "TEXT"@,
            SqlType::Boolean => "BOOLEAN"@,
            SqlType::SmallInt => "SMALLINT"@,
            SqlType::Integer => "INTEGER"@,
            SqlType::BigInt => "BIGINT"@,
            SqlType::Real => "REAL"@,
            SqlType::DoublePrecision => "DOUBLE PRECISION"@,
            SqlType::Timestamp => "TIMESTAMP"@,
            SqlType::Date => "DATE"@,
            SqlType::Text => "TEXT"@,
        }
    }

    /// Infer the tag of one text value, trying the narrowest forms first.
    pub fn infer_from_str(value: &str) -> (r: SqlType)
        ensures
            r == spec_infer(value@),
    {
        if scan_null(value) {
            return SqlType::Null;
        }
        if scan_bool(value) {
            return SqlType::Boolean;
        }
        let sc = scan_int(value);
        if sc.is_int && !sc.over {
            if sc.negative {
                if sc.magnitude <= 32768 {
                    return SqlType::SmallInt;
                }
                if sc.magnitude <= 2147483648 {
                    return SqlType::Integer;
                }
                if sc.magnitude <= 9223372036854775808 {
                    return SqlType::BigInt;
                }
            } else {
                if sc.magnitude <= 32767 {
                    return SqlType::SmallInt;
                }
                if sc.magnitude <= 2147483647 {
                    return SqlType::Integer;
                }
                if sc.magnitude <= 9223372036854775807 {
                    return SqlType::BigInt;
                }
            }
        }
        if scan_real32(value) {
            return SqlType::Real;
        }
        if scan_real64(value) {
            return SqlType::DoublePrecision;
        }
        if Self::is_timestamp(value) {
            return SqlType::Timestamp;
        }
        if Self::is_date(value) {
            return SqlType::Date;
        }
        SqlType::Text
    }

    /// Try each date-and-time layout in turn.
    fn is_timestamp(value: &str) -> (r: bool)
        ensures
            r == is_timestamp_text(value@),
    {
        datetime_parses(value, "%Y-%m-%d %H:%M:%S") || datetime_parses(value, "%Y-%m-%d %H:%M:%S%.f")
            || datetime_parses(value, "%Y-%m-%dT%H:%M:%S") || datetime_parses(
            value,
            "%Y-%m-%dT%H:%M:%S%.f",
        ) || datetime_parses(value, "%Y/%m/%d %H:%M:%S") || datetime_parses(
            value,
            "%d-%m-%Y %H:%M:%S",
        ) || datetime_parses(value, "%m/%d/%Y %H:%M:%S")
    }

    /// Try each date-only layout in turn.
    fn is_date(value: &str) -> (r: bool)
        ensures
            r == is_date_text(value@),
    {
        date_parses(value, "%Y-%m-%d") || date_parses(value, "%Y/%m/%d") || date_parses(
            value,
            "%d-%m-%Y",
        ) || date_parses(value, "%m/%d/%Y") || date_parses(value, "%d/%m/%Y")
    }

    /// Render the tag as its SQL type name.
    pub fn to_sql(&self) -> (r: &'static str)
        ensures
            r@ == self.spec_sql_name(),
    {
        match self {
            SqlType::Null => "TEXT",
            SqlType::Boolean => "BOOLEAN",
            SqlType::SmallInt => "SMALLINT",
            SqlType::Integer => "INTEGER",
            SqlType::BigInt => "BIGINT",
            SqlType::Real => "REAL",
            SqlType::DoublePrecision => "DOUBLE PRECISION",
            SqlType::Timestamp => "TIMESTAMP",
            SqlType::Date => "DATE",
            SqlType::Text => "TEXT",
        }
    }
}

/// The merge operation is commutative: evidence order cannot matter.
pub proof fn lemma_merge_commutative(a: SqlType, b: SqlType)
    ensures
        a.spec_merge(b) == b.spec_merge(a),
{
}

/// The merge operation is associative: grouping of evidence cannot matter.
pub proof fn lemma_merge_associative(a: SqlType, b: SqlType, c: SqlType)
    ensures
        a.spec_merge(b).spec_merge(c) == a.spec_merge(b.spec_merge(c)),
{
}

/// `Null` is the identity of merge: it never overrides other evidence.
pub proof fn lemma_merge_null_identity(t: SqlType)
    ensures
        SqlType::Null.spec_merge(t) == t,
        t.spec_merge(SqlType::Null) == t,
{
}

/// Merging a tag with itself changes nothing.
pub proof fn lemma_merge_idempotent(t: SqlType)
    ensures
        t.spec_merge(t) == t,
{
}

/// `Text` is absorbing-maximal: once a column is text, it stays text.
pub proof fn lemma_merge_text_absorbing(t: SqlType)
    ensures
        SqlType::Text.spec_merge(t) == SqlType::Text,
        t.spec_merge(SqlType::Text) == SqlType::Text,
{
}

} // verus!
