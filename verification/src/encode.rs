//! Encoding a batch of rows into the delimited-text payload the bulk-copy
//! transfer takes: fields joined by commas, rows by newlines, and a field
//! quoted exactly when it holds a comma, a quote or a newline.

use vstd::prelude::*;

use crate::digits::{dec_digits_of, usize_to_string};
use crate::errors::LoaderError;
use crate::schema::{first_mismatch, join_with, lemma_join_with_snoc};

verus! {

/// Whether a field must be quoted: it holds a comma, a quote or a newline.
pub open spec fn needs_quoting(f: Seq<char>) -> bool {
    exists|i: int| 0 <= i < f.len() && (f[i] == ',' || f[i] == '"' || f[i] == '\n')
}

/// The field's characters with every quote doubled.
pub open spec fn doubled_quotes(f: Seq<char>) -> Seq<char>
    decreases f.len(),
{
    if f.len() == 0 {
        Seq::empty()
    } else if f[0] == '"' {
        seq!['"', '"'] + doubled_quotes(f.skip(1))
    } else {
        seq![f[0]] + doubled_quotes(f.skip(1))
    }
}

/// The encoding of one field: empty stays empty (the payload's null token),
/// a field with a special character is wrapped in quotes with inner quotes
/// doubled, anything else passes through.
pub open spec fn spec_encode_field(f: Seq<char>) -> Seq<char> {
    if f.len() == 0 {
        Seq::empty()
    } else if needs_quoting(f) {
        seq!['"'] + doubled_quotes(f) + seq!['"']
    } else {
        f
    }
}

/// One row: encoded fields joined with commas.
pub open spec fn spec_encode_row(row: Seq<Seq<char>>) -> Seq<char> {
    join_with(row.map_values(|f: Seq<char>| spec_encode_field(f)), seq![','])
}

/// A batch: every encoded row followed by a newline.
pub open spec fn spec_encode_batch(rows: Seq<Seq<Seq<char>>>) -> Seq<char>
    decreases rows.len(),
{
    if rows.len() == 0 {
        Seq::empty()
    } else {
        spec_encode_row(rows[0]) + seq!['\n'] + spec_encode_batch(rows.skip(1))
    }
}

/// How a CSV-compliant reader undoes doubled quotes.
pub open spec fn undouble_quotes(t: Seq<char>) -> Seq<char>
    decreases t.len(),
{
    if t.len() == 0 {
        Seq::empty()
    } else if t.len() >= 2 && t[0] == '"' && t[1] == '"' {
        seq!['"'] + undouble_quotes(t.skip(2))
    } else {
        seq![t[0]] + undouble_quotes(t.skip(1))
    }
}

/// How a CSV-compliant reader reads one token back: a quoted token is
/// unwrapped and undoubled, anything else is taken as is.
pub open spec fn spec_decode_field(t: Seq<char>) -> Seq<char> {
    if t.len() >= 2 && t[0] == '"' && t[t.len() - 1] == '"' {
        undouble_quotes(t.subrange(1, t.len() - 1))
    } else {
        t
    }
}

/// The message an encoding-time width mismatch reports.
pub open spec fn encode_mismatch_message(row_len: nat, ncols: nat) -> Seq<char> {
    "Row has "@ + dec_digits_of(row_len) + " columns but expected "@ + dec_digits_of(ncols)
}

proof fn lemma_doubled_append(a: Seq<char>, b: Seq<char>)
    ensures
        doubled_quotes(a + b) == doubled_quotes(a) + doubled_quotes(b),
    decreases a.len(),
{
    if a.len() == 0 {
        assert(a + b =~= b);
        assert(doubled_quotes(a) + doubled_quotes(b) =~= doubled_quotes(b));
    } else {
        assert((a + b)[0] == a[0]);
        assert((a + b).skip(1) =~= a.skip(1) + b);
        lemma_doubled_append(a.skip(1), b);
        if a[0] == '"' {
            assert(seq!['"', '"'] + (doubled_quotes(a.skip(1)) + doubled_quotes(b)) =~= (seq![
                '"',
                '"',
            ] + doubled_quotes(a.skip(1))) + doubled_quotes(b));
        } else {
            assert(seq![a[0]] + (doubled_quotes(a.skip(1)) + doubled_quotes(b)) =~= (seq![a[0]]
                + doubled_quotes(a.skip(1))) + doubled_quotes(b));
        }
    }
}

proof fn lemma_doubled_plain(a: Seq<char>)
    requires
        forall|i: int| 0 <= i < a.len() ==> #[trigger] a[i] != '"',
    ensures
        doubled_quotes(a) == a,
    decreases a.len(),
{
    if a.len() > 0 {
        lemma_doubled_plain(a.skip(1));
        assert(seq![a[0]] + a.skip(1) =~= a);
    }
}

proof fn lemma_undouble_doubled(f: Seq<char>)
    ensures
        undouble_quotes(doubled_quotes(f)) == f,
    decreases f.len(),
{
    if f.len() == 0 {
    } else {
        lemma_undouble_doubled(f.skip(1));
        if f[0] == '"' {
            let d = seq!['"', '"'] + doubled_quotes(f.skip(1));
            assert(d.skip(2) =~= doubled_quotes(f.skip(1)));
            assert(seq!['"'] + f.skip(1) =~= f);
        } else {
            let d = seq![f[0]] + doubled_quotes(f.skip(1));
            assert(d.skip(1) =~= doubled_quotes(f.skip(1)));
            assert(d[0] == f[0]);
            assert(seq![f[0]] + f.skip(1) =~= f);
        }
    }
}

/// Quoting round-trip: decoding an encoded field always reproduces the
/// field it came from exactly.
pub proof fn lemma_field_round_trip(f: Seq<char>)
    ensures
        spec_decode_field(spec_encode_field(f)) == f,
{
    if f.len() == 0 {
    } else if needs_quoting(f) {
        let t = seq!['"'] + doubled_quotes(f) + seq!['"'];
        assert(t[0] == '"' && t[t.len() - 1] == '"');
        assert(t.len() >= 2);
        assert(t.subrange(1, t.len() - 1) =~= doubled_quotes(f));
        lemma_undouble_doubled(f);
    } else {
        // An unquoted field has no quote at all, so it cannot look quoted.
        assert(forall|i: int| 0 <= i < f.len() ==> #[trigger] f[i] != '"');
        if f.len() >= 2 && f[0] == '"' && f[f.len() - 1] == '"' {
            assert(false);
        }
    }
}

/// Encode one field for the payload.
#[verifier::loop_isolation(false)]
pub fn encode_field(f: &str) -> (r: String)
    ensures
        r@ == spec_encode_field(f@),
{
    let n = f.unicode_len();
    // Find whether any character forces quoting.
    let mut quote: bool = false;
    let mut i: usize = 0;
    while i < n
        invariant
            i <= n,
            quote == exists|j: int|
                0 <= j < i && (f@[j] == ',' || f@[j] == '"' || f@[j] == '\n'),
        decreases n - i,
    {
        let c = f.get_char(i);
        if c == ',' || c == '"' || c == '\n' {
            quote = true;
        }
        i = i + 1;
    }
    proof {
        assert(quote == needs_quoting(f@));
    }
    if n == 0 {
        let r = String::new();
        return r;
    }
    if !quote {
        let r = f.substring_char(0, n);
        proof {
            assert(r@ =~= f@);
        }
        return String::from_str(r);
    }
    let mut out = String::from_str("\"");
    proof {
        reveal_strlit("\"");
        reveal_strlit("\"\"");
        assert(out@ =~= seq!['"']);
    }
    let mut start: usize = 0;
    let mut t: usize = 0;
    while t < n
        invariant
            start <= t <= n,
            out@ == seq!['"'] + doubled_quotes(f@.take(start as int)),
            forall|j: int| start <= j < t ==> #[trigger] f@[j] != '"',
        decreases n - t,
    {
        let c = f.get_char(t);
        if c == '"' {
            let chunk = f.substring_char(start, t);
            out.append(chunk);
            out.append("\"\"");
            proof {
                assert(chunk@ =~= f@.subrange(start as int, t as int));
                lemma_doubled_plain(f@.subrange(start as int, t as int));
                assert(f@.take(t + 1) =~= f@.take(start as int) + f@.subrange(
                    start as int,
                    t as int,
                ) + seq!['"']);
                lemma_doubled_append(
                    f@.take(start as int) + f@.subrange(start as int, t as int),
                    seq!['"'],
                );
                lemma_doubled_append(f@.take(start as int), f@.subrange(start as int, t as int));
                reveal_with_fuel(doubled_quotes, 2);
                assert(seq!['"'].skip(1) =~= Seq::<char>::empty());
                assert(doubled_quotes(seq!['"']) =~= seq!['"', '"']);
                assert(out@ =~= seq!['"'] + doubled_quotes(f@.take(t + 1)));
            }
            start = t + 1;
        }
        t = t + 1;
    }
    let tail = f.substring_char(start, n);
    out.append(tail);
    out.append("\"");
    proof {
        assert(tail@ =~= f@.subrange(start as int, n as int));
        lemma_doubled_plain(f@.subrange(start as int, n as int));
        assert(f@ =~= f@.take(start as int) + f@.subrange(start as int, n as int));
        lemma_doubled_append(f@.take(start as int), f@.subrange(start as int, n as int));
        assert(out@ =~= seq!['"'] + doubled_quotes(f@) + seq!['"']);
    }
    out
}

/// Encode one row: fields joined with commas.
#[verifier::loop_isolation(false)]
pub fn encode_row(row: &Vec<String>) -> (r: String)
    ensures
        r@ == spec_encode_row(row.deep_view()),
{
    let ghost parts = row.deep_view().map_values(|f: Seq<char>| spec_encode_field(f));
    let mut out = String::new();
    let nf = row.len();
    let mut i: usize = 0;
    proof {
        reveal_strlit(",");
        assert(out@ =~= join_with(parts.take(0), seq![',']));
    }
    while i < nf
        invariant
            i <= nf,
            out@ == join_with(parts.take(i as int), seq![',']),
        decreases nf - i,
    {
        if i > 0 {
            out.append(",");
        }
        let enc = encode_field(row[i].as_str());
        out.append(enc.as_str());
        proof {
            assert(row.deep_view()[i as int] == row@[i as int]@);
            lemma_join_with_snoc(parts.take(i as int), seq![','], parts[i as int]);
            assert(parts.take(i + 1) =~= parts.take(i as int).push(parts[i as int]));
            assert(","@ =~= seq![',']);
            assert(out@ =~= join_with(parts.take(i + 1), seq![',']));
        }
        i = i + 1;
    }
    proof {
        assert(parts.take(nf as int) =~= parts);
    }
    out
}

proof fn lemma_encode_batch_snoc(rows: Seq<Seq<Seq<char>>>, row: Seq<Seq<char>>)
    ensures
        spec_encode_batch(rows.push(row)) == spec_encode_batch(rows) + spec_encode_row(row) + seq![
            '\n',
        ],
    decreases rows.len(),
{
    if rows.len() == 0 {
        reveal_with_fuel(spec_encode_batch, 2);
        assert(rows.push(row)[0] == row);
        assert(rows.push(row).skip(1) =~= Seq::<Seq<Seq<char>>>::empty());
        assert(spec_encode_row(row) + seq!['\n'] + Seq::<char>::empty() =~= Seq::<char>::empty()
            + spec_encode_row(row) + seq!['\n']);
    } else {
        assert(rows.push(row)[0] == rows[0]);
        assert(rows.push(row).skip(1) =~= rows.skip(1).push(row));
        lemma_encode_batch_snoc(rows.skip(1), row);
        assert(spec_encode_row(rows[0]) + seq!['\n'] + (spec_encode_batch(rows.skip(1))
            + spec_encode_row(row) + seq!['\n']) =~= (spec_encode_row(rows[0]) + seq!['\n']
            + spec_encode_batch(rows.skip(1))) + spec_encode_row(row) + seq!['\n']);
    }
}

/// Encode a whole batch for the transfer, checking every row's width against
/// the column count; the first row of the wrong width fails the batch.
#[verifier::loop_isolation(false)]
pub fn encode_batch(rows: &Vec<Vec<String>>, ncols: usize) -> (r: Result<String, LoaderError>)
    ensures
        ({
            let all = rows.deep_view();
            let mis = first_mismatch(all, ncols as int);
            &&& (mis < all.len() ==> (r matches Err(LoaderError::TypeConversionError(m)) && m@
                == encode_mismatch_message(all[mis].len(), ncols as nat)))
            &&& (mis == all.len() ==> (r matches Ok(payload) && payload@ == spec_encode_batch(all)))
        }),
{
    let ghost all = rows.deep_view();
    let mut out = String::new();
    let nrows = rows.len();
    let mut i: usize = 0;
    proof {
        assert(out@ =~= spec_encode_batch(all.take(0)));
    }
    while i < nrows
        invariant
            i <= nrows,
            out@ == spec_encode_batch(all.take(i as int)),
            forall|j: int| 0 <= j < i ==> (#[trigger] all[j]).len() == ncols,
        decreases nrows - i,
    {
        let row = &rows[i];
        proof {
            assert(row.deep_view() == all[i as int]);
        }
        if row.len() != ncols {
            proof {
                crate::schema::lemma_first_mismatch_at(all, ncols as int, i as int);
            }
            let mut msg = String::from_str("Row has ");
            let rlen = usize_to_string(row.len());
            msg.append(rlen.as_str());
            msg.append(" columns but expected ");
            let clen = usize_to_string(ncols);
            msg.append(clen.as_str());
            proof {
                assert(msg@ =~= encode_mismatch_message(all[i as int].len(), ncols as nat));
            }
            return Err(LoaderError::TypeConversionError(msg));
        }
        let enc = encode_row(row);
        out.append(enc.as_str());
        out.append("\n");
        proof {
            reveal_strlit("\n");
            lemma_encode_batch_snoc(all.take(i as int), all[i as int]);
            assert(all.take(i + 1) =~= all.take(i as int).push(all[i as int]));
            assert("\n"@ =~= seq!['\n']);
            assert(out@ =~= spec_encode_batch(all.take(i + 1)));
        }
        i = i + 1;
    }
    proof {
        crate::schema::lemma_first_mismatch_at(all, ncols as int, nrows as int);
        assert(all.take(nrows as int) =~= all);
    }
    Ok(out)
}

} // verus!
