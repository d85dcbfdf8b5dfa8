//! Schema inference: per-column statistics, the table schema with its DDL
//! rendering, table-name validation, and the bounded-sample inference driver.

use vstd::prelude::*;

use crate::digits::{dec_digits_of, usize_to_string};
use crate::errors::LoaderError;
use crate::ext::{char_alphabetic, char_alphanumeric, is_alphabetic_char, is_alphanumeric_char};
use crate::types::{spec_infer, SqlType};

verus! {

/// Statistics one column accumulates over sampled values.
#[derive(Debug, Clone)]
pub struct ColumnSchema {
    pub name: String,
    pub sql_type: SqlType,
    pub nullable: bool,
    pub sample_count: usize,
    pub null_count: usize,
}

/// Weight of a tag in the confidence score, in thousandths: plain text says
/// the least, a column that never left null says little, and any specific
/// tag counts fully.
pub open spec fn spec_type_weight(t: SqlType) -> int {
    if t == SqlType::Text {
        600
    } else if t == SqlType::Null {
        300
    } else {
        1000
    }
}

impl ColumnSchema {
    /// At most every sample was null.
    pub open spec fn wf(self) -> bool {
        self.null_count <= self.sample_count
    }

    /// The column after one more value is observed.
    pub open spec fn spec_observe(self, v: Seq<char>) -> ColumnSchema {
        ColumnSchema {
            name: self.name,
            sql_type: self.sql_type.spec_merge(spec_infer(v)),
            nullable: self.nullable,
            sample_count: (self.sample_count + 1) as usize,
            null_count: if spec_infer(v) == SqlType::Null {
                (self.null_count + 1) as usize
            } else {
                self.null_count
            },
        }
    }

    /// The column as finalization leaves it: a column that stayed null
    /// defaults to text, and nullability records whether any null was seen.
    pub open spec fn spec_finalize(self) -> ColumnSchema {
        ColumnSchema {
            sql_type: if self.sql_type == SqlType::Null {
                SqlType::Text
            } else {
                self.sql_type
            },
            nullable: self.null_count > 0,
            ..self
        }
    }

    /// The confidence score in thousandths: the non-null ratio scaled by the
    /// tag's weight; zero when nothing was sampled.
    pub open spec fn spec_confidence_permille(self) -> int {
        if self.sample_count == 0 {
            0
        } else {
            spec_type_weight(self.sql_type) * (self.sample_count - self.null_count)
                / self.sample_count as int
        }
    }

    /// A fresh column starts at the bottom of the lattice.
    pub fn new(name: String) -> (r: Self)
        ensures
            r.name == name,
            r.sql_type == SqlType::Null,
            r.nullable == true,
            r.sample_count == 0,
            r.null_count == 0,
    {
        Self { name, sql_type: SqlType::Null, nullable: true, sample_count: 0, null_count: 0 }
    }

    /// Observe one value: count it, count a null, and widen the type.
    pub fn update(&mut self, value: &str)
        requires
            old(self).sample_count < usize::MAX,
            old(self).wf(),
        ensures
            *final(self) == old(self).spec_observe(value@),
            final(self).wf(),
    {
        self.sample_count = self.sample_count + 1;
        let inferred = SqlType::infer_from_str(value);
        if inferred == SqlType::Null {
            self.null_count = self.null_count + 1;
        }
        self.sql_type = self.sql_type.merge(&inferred);
    }

    /// Close the column out once sampling ends.
    pub fn finalize(&mut self)
        ensures
            *final(self) == old(self).spec_finalize(),
    {
        if self.sql_type == SqlType::Null {
            self.sql_type = SqlType::Text;
        }
        self.nullable = self.null_count > 0;
    }

    /// Compute the confidence score in thousandths.
    pub fn confidence_permille(&self) -> (r: u64)
        requires
            self.wf(),
        ensures
            r == self.spec_confidence_permille(),
    {
        if self.sample_count == 0 {
            return 0;
        }
        let weight: u64 = match self.sql_type {
            SqlType::Text => 600,
            SqlType::Null => 300,
            _ => 1000,
        };
        let num: u128 = (weight as u128) * ((self.sample_count - self.null_count) as u128);
        let den: u128 = self.sample_count as u128;
        let q: u128 = num / den;
        proof {
            assert(num <= 1000 * den) by (nonlinear_arith)
                requires
                    num == (weight as int) * ((self.sample_count - self.null_count) as int),
                    weight <= 1000,
                    (self.sample_count - self.null_count) as int <= den,
                    den >= 1,
            ;
            assert(q <= 1000) by (nonlinear_arith)
                requires
                    q == num / den,
                    num <= 1000 * den,
                    den >= 1,
            ;
        }
        q as u64
    }
}

/// The initial column row for a list of names: everything at the bottom.
pub open spec fn initial_columns(names: Seq<String>) -> Seq<ColumnSchema> {
    Seq::new(
        names.len(),
        |i: int|
            ColumnSchema {
                name: names[i],
                sql_type: SqlType::Null,
                nullable: true,
                sample_count: 0,
                null_count: 0,
            },
    )
}

/// Every column observes its positional value of one row.
pub open spec fn observe_row(cols: Seq<ColumnSchema>, row: Seq<Seq<char>>) -> Seq<ColumnSchema> {
    Seq::new(cols.len(), |i: int| cols[i].spec_observe(row[i]))
}

/// Rows observed in order, each updating every column.
pub open spec fn observe_rows(cols: Seq<ColumnSchema>, rows: Seq<Seq<Seq<char>>>) -> Seq<
    ColumnSchema,
>
    decreases rows.len(),
{
    if rows.len() == 0 {
        cols
    } else {
        observe_rows(observe_row(cols, rows[0]), rows.skip(1))
    }
}

/// Every column finalized.
pub open spec fn finalize_columns(cols: Seq<ColumnSchema>) -> Seq<ColumnSchema> {
    Seq::new(cols.len(), |i: int| cols[i].spec_finalize())
}

/// One column observing a sequence of values, in order.
pub open spec fn observe_values(c: ColumnSchema, vs: Seq<Seq<char>>) -> ColumnSchema
    decreases vs.len(),
{
    if vs.len() == 0 {
        c
    } else {
        observe_values(c.spec_observe(vs[0]), vs.skip(1))
    }
}

/// A column that only ever sees values of one inferred tag ends with exactly
/// that tag: uniform evidence is never widened.
pub proof fn lemma_uniform_observations(c: ColumnSchema, vs: Seq<Seq<char>>, t: SqlType)
    requires
        c.sql_type == SqlType::Null || c.sql_type == t,
        forall|i: int| 0 <= i < vs.len() ==> spec_infer(#[trigger] vs[i]) == t,
    ensures
        observe_values(c, vs).sql_type == if vs.len() == 0 {
            c.sql_type
        } else {
            t
        },
    decreases vs.len(),
{
    if vs.len() > 0 {
        crate::types::lemma_merge_null_identity(t);
        crate::types::lemma_merge_idempotent(t);
        assert forall|i: int| 0 <= i < vs.skip(1).len() implies spec_infer(
            #[trigger] vs.skip(1)[i],
        ) == t by {
            assert(vs.skip(1)[i] == vs[i + 1]);
        }
        lemma_uniform_observations(c.spec_observe(vs[0]), vs.skip(1), t);
    }
}

/// Two observations commute on the inferred type: the merged tag does not
/// depend on the order evidence arrives in.
pub proof fn lemma_observe_order_two(c: ColumnSchema, a: Seq<char>, b: Seq<char>)
    ensures
        c.spec_observe(a).spec_observe(b).sql_type == c.spec_observe(b).spec_observe(a).sql_type,
{
    let t = c.sql_type;
    let ia = spec_infer(a);
    let ib = spec_infer(b);
    crate::types::lemma_merge_associative(t, ia, ib);
    crate::types::lemma_merge_commutative(ia, ib);
    crate::types::lemma_merge_associative(t, ib, ia);
}

/// Index of the first row whose width differs from the column count, or the
/// row count when every row fits.
pub open spec fn first_mismatch(rows: Seq<Seq<Seq<char>>>, ncols: int) -> int
    decreases rows.len(),
{
    if rows.len() == 0 {
        0
    } else if rows[0].len() != ncols {
        0
    } else {
        1 + first_mismatch(rows.skip(1), ncols)
    }
}

/// The message a row-width mismatch reports.
pub open spec fn row_mismatch_message(row_len: nat, ncols: nat) -> Seq<char> {
    "Row has "@ + dec_digits_of(row_len) + " columns but schema expects "@ + dec_digits_of(ncols)
}

proof fn lemma_observe_rows_snoc(
    cols: Seq<ColumnSchema>,
    rows: Seq<Seq<Seq<char>>>,
    row: Seq<Seq<char>>,
)
    ensures
        observe_rows(cols, rows.push(row)) == observe_row(observe_rows(cols, rows), row),
    decreases rows.len(),
{
    if rows.len() == 0 {
        reveal_with_fuel(observe_rows, 2);
        assert(rows.push(row)[0] == row);
        assert(rows.push(row).skip(1) =~= Seq::<Seq<Seq<char>>>::empty());
        assert(rows =~= Seq::<Seq<Seq<char>>>::empty());
    } else {
        assert(rows.push(row)[0] == rows[0]);
        assert(rows.push(row).skip(1) =~= rows.skip(1).push(row));
        lemma_observe_rows_snoc(observe_row(cols, rows[0]), rows.skip(1), row);
    }
}

pub proof fn lemma_first_mismatch_at(rows: Seq<Seq<Seq<char>>>, ncols: int, k: int)
    requires
        0 <= k <= rows.len(),
        forall|j: int| 0 <= j < k ==> (#[trigger] rows[j]).len() == ncols,
        k == rows.len() || rows[k].len() != ncols,
    ensures
        first_mismatch(rows, ncols) == k,
    decreases k,
{
    if k > 0 {
        assert forall|j: int| 0 <= j < k - 1 implies (#[trigger] rows.skip(1)[j]).len() == ncols by {
            assert(rows.skip(1)[j] == rows[j + 1]);
        }
        if k < rows.len() {
            assert(rows.skip(1)[k - 1] == rows[k]);
        }
        lemma_first_mismatch_at(rows.skip(1), ncols, k - 1);
    }
}

/// A table schema: a name and positional columns.
#[derive(Debug, Clone)]
pub struct TableSchema {
    pub table_name: String,
    pub columns: Vec<ColumnSchema>,
}

impl TableSchema {
    /// Every column's counts are consistent.
    pub open spec fn wf(self) -> bool {
        forall|i: int| 0 <= i < self.columns@.len() ==> (#[trigger] self.columns@[i]).wf()
    }

    /// A fresh schema with one bottom column per name.
    pub fn new(table_name: String, column_names: Vec<String>) -> (r: Self)
        ensures
            r.table_name == table_name,
            r.columns@ == initial_columns(column_names@),
    {
        let mut columns: Vec<ColumnSchema> = Vec::new();
        let mut i: usize = 0;
        while i < column_names.len()
            invariant
                i <= column_names@.len(),
                columns@.len() == i,
                forall|j: int| 0 <= j < i ==> columns@[j] == initial_columns(column_names@)[j],
            decreases column_names@.len() - i,
        {
            let name = column_names[i].clone();
            columns.push(ColumnSchema::new(name));
            i = i + 1;
        }
        proof {
            assert(columns@ =~= initial_columns(column_names@));
        }
        TableSchema { table_name, columns }
    }

    /// Observe one row across all columns; a row of the wrong width is
    /// rejected whole, changing nothing.
    pub fn update_row(&mut self, row: &Vec<String>) -> (r: Result<(), LoaderError>)
        requires
            old(self).wf(),
            forall|i: int|
                0 <= i < old(self).columns@.len() ==> (#[trigger] old(
                    self,
                ).columns@[i]).sample_count < usize::MAX,
        ensures
            final(self).wf(),
            final(self).table_name == old(self).table_name,
            row@.len() == old(self).columns@.len() ==> r is Ok && final(self).columns@
                == observe_row(old(self).columns@, row.deep_view()),
            row@.len() != old(self).columns@.len() ==> *final(self) == *old(self) && (r matches Err(
                LoaderError::SchemaInferenceError(m),
            ) && m@ == row_mismatch_message(row@.len(), old(self).columns@.len())),
    {
        let ncols = self.columns.len();
        if row.len() != ncols {
            let mut msg = String::from_str("Row has ");
            let rlen = usize_to_string(row.len());
            msg.append(rlen.as_str());
            msg.append(" columns but schema expects ");
            let clen = usize_to_string(ncols);
            msg.append(clen.as_str());
            proof {
                assert(msg@ =~= row_mismatch_message(row@.len(), old(self).columns@.len()));
            }
            return Err(LoaderError::SchemaInferenceError(msg));
        }
        let mut i: usize = 0;
        while i < ncols
            invariant
                i <= ncols == self.columns@.len(),
                row@.len() == ncols,
                self.table_name == old(self).table_name,
                self.columns@.len() == old(self).columns@.len(),
                forall|j: int|
                    i <= j < ncols ==> #[trigger] self.columns@[j] == old(self).columns@[j],
                forall|j: int|
                    0 <= j < i ==> #[trigger] self.columns@[j] == observe_row(
                        old(self).columns@,
                        row.deep_view(),
                    )[j],
                forall|j: int|
                    0 <= j < old(self).columns@.len() ==> (#[trigger] old(
                        self,
                    ).columns@[j]).sample_count < usize::MAX,
                old(self).wf(),
            decreases ncols - i,
        {
            self.columns[i].update(row[i].as_str());
            i = i + 1;
        }
        proof {
            assert(self.columns@ =~= observe_row(old(self).columns@, row.deep_view()));
        }
        Ok(())
    }

    /// Close out every column once sampling ends.
    pub fn finalize(&mut self)
        ensures
            final(self).table_name == old(self).table_name,
            final(self).columns@ == finalize_columns(old(self).columns@),
    {
        let ncols = self.columns.len();
        let mut i: usize = 0;
        while i < ncols
            invariant
                i <= ncols == self.columns@.len(),
                self.table_name == old(self).table_name,
                self.columns@.len() == old(self).columns@.len(),
                forall|j: int|
                    i <= j < ncols ==> #[trigger] self.columns@[j] == old(self).columns@[j],
                forall|j: int|
                    0 <= j < i ==> #[trigger] self.columns@[j] == finalize_columns(
                        old(self).columns@,
                    )[j],
            decreases ncols - i,
        {
            self.columns[i].finalize();
            i = i + 1;
        }
        proof {
            assert(self.columns@ =~= finalize_columns(old(self).columns@));
        }
    }
}

/// Text parts joined with a separator.
pub open spec fn join_with(parts: Seq<Seq<char>>, sep: Seq<char>) -> Seq<char>
    decreases parts.len(),
{
    if parts.len() == 0 {
        Seq::empty()
    } else if parts.len() == 1 {
        parts[0]
    } else {
        parts[0] + sep + join_with(parts.skip(1), sep)
    }
}

pub proof fn lemma_join_with_snoc(parts: Seq<Seq<char>>, sep: Seq<char>, x: Seq<char>)
    ensures
        join_with(parts.push(x), sep) == if parts.len() == 0 {
            x
        } else {
            join_with(parts, sep) + sep + x
        },
    decreases parts.len(),
{
    reveal_with_fuel(join_with, 3);
    if parts.len() == 0 {
        assert(parts.push(x)[0] == x);
    } else if parts.len() == 1 {
        assert(parts.push(x)[0] == parts[0]);
        assert(parts.push(x).skip(1) =~= seq![x]);
    } else {
        assert(parts.push(x)[0] == parts[0]);
        assert(parts.push(x).skip(1) =~= parts.skip(1).push(x));
        lemma_join_with_snoc(parts.skip(1), sep, x);
        assert(parts[0] + sep + (join_with(parts.skip(1), sep) + sep + x) =~= (parts[0] + sep
            + join_with(parts.skip(1), sep)) + sep + x);
    }
}

/// One column's definition line in the DDL.
pub open spec fn spec_column_def(c: ColumnSchema) -> Seq<char> {
    "  "@ + c.name@ + " "@ + c.sql_type.spec_sql_name() + (if c.nullable {
        Seq::<char>::empty()
    } else {
        " NOT NULL"@
    })
}

/// Whether a character may start a table name.
pub open spec fn table_name_start_ok(s: Seq<char>) -> bool {
    s.len() > 0 && (char_alphabetic(s[0]) || s[0] == '_')
}

/// Whether every character of a table name is word-like.
pub open spec fn table_name_chars_ok(s: Seq<char>) -> bool {
    forall|i: int| 0 <= i < s.len() ==> char_alphanumeric(#[trigger] s[i]) || s[i] == '_'
}

/// The code of a character with an ASCII capital folded to its small form.
pub open spec fn lower_code(c: char) -> int {
    if 'A' <= c && c <= 'Z' {
        c as int + 32
    } else {
        c as int
    }
}

/// Letter-case-blind equality over ASCII.
pub open spec fn ascii_eq_ignore_case(a: Seq<char>, b: Seq<char>) -> bool {
    a.len() == b.len() && forall|i: int|
        0 <= i < a.len() ==> lower_code(#[trigger] a[i]) == lower_code(b[i])
}

/// The fixed reserved-word list, matched without regard to letter case.
pub open spec fn is_reserved_word(s: Seq<char>) -> bool {
    ||| ascii_eq_ignore_case(s, "SELECT"@)
    ||| ascii_eq_ignore_case(s, "INSERT"@)
    ||| ascii_eq_ignore_case(s, "UPDATE"@)
    ||| ascii_eq_ignore_case(s, "DELETE"@)
    ||| ascii_eq_ignore_case(s, "DROP"@)
    ||| ascii_eq_ignore_case(s, "CREATE"@)
    ||| ascii_eq_ignore_case(s, "ALTER"@)
    ||| ascii_eq_ignore_case(s, "EXEC"@)
}

/// A valid table name: nonempty, word-like, starting with a letter or
/// underscore, and no reserved word.
pub open spec fn valid_table_name(s: Seq<char>) -> bool {
    s.len() > 0 && table_name_start_ok(s) && table_name_chars_ok(s) && !is_reserved_word(s)
}

/// The message rejection reports, by the first rule that fails.
pub open spec fn table_name_error_message(s: Seq<char>) -> Seq<char> {
    if s.len() == 0 {
        "Table name cannot be empty"@
    } else if !table_name_start_ok(s) {
        "Table name must start with letter or underscore: "@ + s
    } else if !table_name_chars_ok(s) {
        "Table name contains invalid characters: "@ + s
    } else {
        "Table name cannot be SQL keyword: "@ + s
    }
}

/// Letter-case-blind comparison of two texts.
fn eq_ignore_case(s: &str, t: &str) -> (r: bool)
    ensures
        r == ascii_eq_ignore_case(s@, t@),
{
    let n = s.unicode_len();
    let m = t.unicode_len();
    if n != m {
        return false;
    }
    let mut i: usize = 0;
    while i < n
        invariant
            i <= n == s@.len(),
            n == t@.len(),
            forall|j: int| 0 <= j < i ==> lower_code(#[trigger] s@[j]) == lower_code(t@[j]),
        decreases n - i,
    {
        let a = s.get_char(i);
        let b = t.get_char(i);
        let ua = a as u32;
        let ub = b as u32;
        let la: u32 = if 65 <= ua && ua <= 90 {
            ua + 32
        } else {
            ua
        };
        let lb: u32 = if 65 <= ub && ub <= 90 {
            ub + 32
        } else {
            ub
        };
        proof {
            assert(la == lower_code(a));
            assert(lb == lower_code(b));
        }
        if la != lb {
            return false;
        }
        i = i + 1;
    }
    true
}

impl TableSchema {
    /// The DDL text this schema renders as.
    pub open spec fn spec_create_table_sql(self) -> Seq<char> {
        "CREATE TABLE "@ + self.table_name@ + " (\n"@ + join_with(
            self.columns@.map_values(|c: ColumnSchema| spec_column_def(c)),
            ",\n"@,
        ) + "\n);"@
    }

    /// Render the CREATE TABLE statement.
    #[verifier::loop_isolation(false)]
    pub fn to_create_table_sql(&self) -> (r: String)
        ensures
            r@ == self.spec_create_table_sql(),
    {
        let ghost defs = self.columns@.map_values(|c: ColumnSchema| spec_column_def(c));
        let mut sql = String::from_str("CREATE TABLE ");
        sql.append(self.table_name.as_str());
        sql.append(" (\n");
        let ghost head = sql@;
        let ncols = self.columns.len();
        let mut i: usize = 0;
        proof {
            assert(sql@ =~= head + join_with(defs.take(0), ",\n"@));
        }
        while i < ncols
            invariant
                i <= ncols,
                sql@ == head + join_with(defs.take(i as int), ",\n"@),
            decreases ncols - i,
        {
            if i > 0 {
                sql.append(",\n");
            }
            sql.append("  ");
            let col = &self.columns[i];
            sql.append(col.name.as_str());
            sql.append(" ");
            sql.append(col.sql_type.to_sql());
            if !col.nullable {
                sql.append(" NOT NULL");
            }
            proof {
                lemma_join_with_snoc(defs.take(i as int), ",\n"@, defs[i as int]);
                assert(defs.take(i + 1) =~= defs.take(i as int).push(defs[i as int]));
                assert(sql@ =~= head + join_with(defs.take(i + 1), ",\n"@));
            }
            i = i + 1;
        }
        proof {
            assert(defs.take(ncols as int) =~= defs);
            assert(sql@ + "\n);"@ =~= self.spec_create_table_sql());
        }
        sql.append("\n);");
        sql
    }

    /// The column names joined with commas.
    pub open spec fn spec_column_names(self) -> Seq<char> {
        join_with(self.columns@.map_values(|c: ColumnSchema| c.name@), ", "@)
    }

    /// Render the column names as one comma-separated text.
    #[verifier::loop_isolation(false)]
    pub fn column_names(&self) -> (r: String)
        ensures
            r@ == self.spec_column_names(),
    {
        let ghost names = self.columns@.map_values(|c: ColumnSchema| c.name@);
        let mut out = String::new();
        let ncols = self.columns.len();
        let mut i: usize = 0;
        proof {
            assert(out@ =~= join_with(names.take(0), ", "@));
        }
        while i < ncols
            invariant
                i <= ncols,
                out@ == join_with(names.take(i as int), ", "@),
            decreases ncols - i,
        {
            if i > 0 {
                out.append(", ");
            }
            let col = &self.columns[i];
            out.append(col.name.as_str());
            proof {
                lemma_join_with_snoc(names.take(i as int), ", "@, names[i as int]);
                assert(names.take(i + 1) =~= names.take(i as int).push(names[i as int]));
                assert(out@ =~= join_with(names.take(i + 1), ", "@));
            }
            i = i + 1;
        }
        proof {
            assert(names.take(ncols as int) =~= names);
        }
        out
    }

    /// Validate a table name against the identifier rules, reporting the
    /// first rule that fails.
    pub fn validate_table_name(name: &str) -> (r: Result<(), LoaderError>)
        ensures
            r is Ok <==> valid_table_name(name@),
            r is Err ==> (r matches Err(LoaderError::InvalidTableName(m)) && m@
                == table_name_error_message(name@)),
    {
        let n = name.unicode_len();
        if n == 0 {
            let msg = String::from_str("Table name cannot be empty");
            proof {
                assert(msg@ == table_name_error_message(name@));
            }
            return Err(LoaderError::InvalidTableName(msg));
        }
        let c0 = name.get_char(0);
        let start_ok = is_alphabetic_char(c0) || c0 == '_';
        if !start_ok {
            let mut msg = String::from_str("Table name must start with letter or underscore: ");
            msg.append(name);
            return Err(LoaderError::InvalidTableName(msg));
        }
        let mut i: usize = 0;
        while i < n
            invariant
                i <= n == name@.len(),
                n > 0,
                table_name_start_ok(name@),
                forall|j: int|
                    0 <= j < i ==> char_alphanumeric(#[trigger] name@[j]) || name@[j] == '_',
            decreases n - i,
        {
            let c = name.get_char(i);
            let ok = is_alphanumeric_char(c) || c == '_';
            if !ok {
                proof {
                    assert(!table_name_chars_ok(name@));
                }
                let mut msg = String::from_str("Table name contains invalid characters: ");
                msg.append(name);
                return Err(LoaderError::InvalidTableName(msg));
            }
            i = i + 1;
        }
        proof {
            assert(table_name_chars_ok(name@));
        }
        let reserved = eq_ignore_case(name, "SELECT") || eq_ignore_case(name, "INSERT")
            || eq_ignore_case(name, "UPDATE") || eq_ignore_case(name, "DELETE") || eq_ignore_case(
            name,
            "DROP",
        ) || eq_ignore_case(name, "CREATE") || eq_ignore_case(name, "ALTER") || eq_ignore_case(
            name,
            "EXEC",
        );
        if reserved {
            let mut msg = String::from_str("Table name cannot be SQL keyword: ");
            msg.append(name);
            return Err(LoaderError::InvalidTableName(msg));
        }
        Ok(())
    }
}

/// Drive inference over a bounded sample of rows: observe up to
/// `config.sample_size` rows, reject the first row of the wrong width, fail
/// on an empty sample, and finalize every column.
#[verifier::loop_isolation(false)]
pub fn infer_schema(
    table_name: String,
    column_names: Vec<String>,
    rows: &Vec<Vec<String>>,
    config: &InferenceConfig,
) -> (r: Result<TableSchema, LoaderError>)
    ensures
        ({
            let all = rows.deep_view();
            let k: int = if config.sample_size <= all.len() {
                config.sample_size as int
            } else {
                all.len() as int
            };
            let considered = all.take(k);
            let ncols = column_names@.len() as int;
            let mis = first_mismatch(considered, ncols);
            &&& (mis < k ==> (r matches Err(LoaderError::SchemaInferenceError(m)) && m@
                == row_mismatch_message(considered[mis].len(), ncols as nat)))
            &&& (mis == k && k == 0 ==> r matches Err(LoaderError::EmptyFile))
            &&& (mis == k && k > 0 ==> (r matches Ok(ts) && ts.table_name == table_name
                && ts.columns@ == finalize_columns(
                observe_rows(initial_columns(column_names@), considered),
            )))
        }),
{
    let ghost names0 = column_names@;
    let ghost tname0 = table_name;
    let mut schema = TableSchema::new(table_name, column_names);
    let ncols = schema.columns.len();
    let total = rows.len();
    let limit: usize = if config.sample_size <= total {
        config.sample_size
    } else {
        total
    };
    let ghost considered = rows.deep_view().take(limit as int);
    let mut idx: usize = 0;
    while idx < limit
        invariant
            idx <= limit,
            schema.wf(),
            schema.table_name == tname0,
            schema.columns@ == observe_rows(initial_columns(names0), considered.take(idx as int)),
            schema.columns@.len() == ncols,
            forall|t: int| 0 <= t < ncols ==> (#[trigger] schema.columns@[t]).sample_count == idx,
            forall|j: int| 0 <= j < idx ==> (#[trigger] considered[j]).len() == ncols,
        decreases limit - idx,
    {
        proof {
            assert(rows@[idx as int].deep_view() == considered[idx as int]);
        }
        let row_result = schema.update_row(&rows[idx]);
        match row_result {
            Ok(()) => {}
            Err(e) => {
                proof {
                    lemma_first_mismatch_at(considered, ncols as int, idx as int);
                }
                return Err(e);
            }
        }
        proof {
            lemma_observe_rows_snoc(
                initial_columns(names0),
                considered.take(idx as int),
                considered[idx as int],
            );
            assert(considered.take(idx + 1) =~= considered.take(idx as int).push(
                considered[idx as int],
            ));
        }
        idx = idx + 1;
    }
    if limit == 0 {
        return Err(LoaderError::EmptyFile);
    }
    proof {
        lemma_first_mismatch_at(considered, ncols as int, limit as int);
        assert(considered.take(limit as int) =~= considered);
    }
    schema.finalize();
    Ok(schema)
}

/// Schema inference configuration.
#[derive(Debug, Clone)]
pub struct InferenceConfig {
    pub sample_size: usize,
    pub has_headers: bool,
}

impl InferenceConfig {
    pub fn new(sample_size: usize, has_headers: bool) -> (r: Self)
        ensures
            r.sample_size == sample_size,
            r.has_headers == has_headers,
    {
        Self { sample_size, has_headers }
    }
}

impl Default for InferenceConfig {
    /// A thousand sampled rows, headers expected.
    fn default() -> (r: Self)
        ensures
            r.sample_size == 1000,
            r.has_headers == true,
    {
        Self { sample_size: 1000, has_headers: true }
    }
}

} // verus!
