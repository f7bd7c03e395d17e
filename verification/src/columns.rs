//! Columns: the symbols of a field, picked row by row through its indices.

use vstd::prelude::*;
use vstd::slice::slice_to_vec;
use crate::error::{is_fault, Fault, QvdError};
use crate::symbols::{symbol_views, Symbol, SymbolView};

verus! {

/// Whether `pointer` points past the end of a symbol table of `count`
/// symbols. No pointer is out of range for an empty table, whose rows are
/// skipped.
pub open spec fn out_of_range(count: int, pointer: i64) -> bool {
    count > 0 && pointer >= count
}

/// Position of the first pointer that is out of range for a table of `count`
/// symbols, or the number of pointers where none is.
pub open spec fn first_out_of_range(count: int, pointers: Seq<i64>) -> int
    decreases pointers.len(),
{
    if pointers.len() == 0 {
        0
    } else {
        let before = first_out_of_range(count, pointers.drop_last());
        if before == pointers.len() - 1 && !out_of_range(count, pointers.last()) {
            pointers.len() as int
        } else {
            before
        }
    }
}

/// The entries of the column that `pointers` picks from `symbols`, none of
/// the pointers being out of range. A negative pointer gives `absent`, any
/// other the symbol at its position; for an empty table the rows with a
/// pointer that is not negative are left out.
pub open spec fn column_entries<T>(symbols: Seq<T>, absent: T, pointers: Seq<i64>) -> Seq<T> {
    if symbols.len() == 0 {
        Seq::new(pointers.filter(|p: i64| p < 0).len(), |k: int| absent)
    } else {
        Seq::new(
            pointers.len(),
            |k: int|
                if pointers[k] < 0 {
                    absent
                } else {
                    symbols[pointers[k] as int]
                },
        )
    }
}

/// The column that `pointers` picks from `symbols`, or the row of the first
/// pointer that is out of range.
pub open spec fn column_of<T>(symbols: Seq<T>, absent: T, pointers: Seq<i64>) -> Result<
    Seq<T>,
    (int, Fault),
> {
    let bad = first_out_of_range(symbols.len() as int, pointers);
    if bad < pointers.len() {
        Err((bad, Fault::IndexOutOfRange))
    } else {
        Ok(column_entries(symbols, absent, pointers))
    }
}

/// The first pointer out of range is out of range, and none before it is.
pub proof fn lemma_first_out_of_range(count: int, pointers: Seq<i64>)
    ensures
        0 <= first_out_of_range(count, pointers) <= pointers.len(),
        first_out_of_range(count, pointers) < pointers.len() ==> out_of_range(
            count,
            pointers[first_out_of_range(count, pointers)],
        ),
        forall|j: int|
            0 <= j < first_out_of_range(count, pointers) ==> !out_of_range(
                count,
                #[trigger] pointers[j],
            ),
    decreases pointers.len(),
{
    if pointers.len() > 0 {
        let rest = pointers.drop_last();
        lemma_first_out_of_range(count, rest);
        let first = first_out_of_range(count, pointers);
        assert forall|j: int| 0 <= j < first implies !out_of_range(
            count,
            #[trigger] pointers[j],
        ) by {
            if j < rest.len() {
                assert(rest[j] == pointers[j]);
            }
        }
    }
}

/// A position whose pointer is out of range, or the end of the pointers, is
/// the first such position when no pointer before it is out of range.
pub proof fn lemma_first_out_of_range_is(count: int, pointers: Seq<i64>, at: int)
    requires
        0 <= at <= pointers.len(),
        at < pointers.len() ==> out_of_range(count, pointers[at]),
        forall|j: int| 0 <= j < at ==> !out_of_range(count, #[trigger] pointers[j]),
    ensures
        first_out_of_range(count, pointers) == at,
{
    lemma_first_out_of_range(count, pointers);
}

/// A column picked from a symbol table that is not empty has one entry for
/// each pointer: `absent` where the pointer is negative, else the symbol at
/// the position that the pointer names, which lies inside the table.
pub proof fn lemma_column_entry<T>(symbols: Seq<T>, absent: T, pointers: Seq<i64>, k: int)
    requires
        symbols.len() > 0,
        column_of(symbols, absent, pointers) is Ok,
        0 <= k < pointers.len(),
    ensures
        column_of(symbols, absent, pointers)->Ok_0.len() == pointers.len(),
        pointers[k] < 0 ==> column_of(symbols, absent, pointers)->Ok_0[k] == absent,
        pointers[k] >= 0 ==> pointers[k] < symbols.len() && column_of(
            symbols,
            absent,
            pointers,
        )->Ok_0[k] == symbols[pointers[k] as int],
{
    lemma_first_out_of_range(symbols.len() as int, pointers);
}

/// One more pointer adds at most one entry to a column.
proof fn lemma_column_grows<T>(symbols: Seq<T>, absent: T, pointers: Seq<i64>, k: int)
    requires
        0 <= k < pointers.len(),
        !out_of_range(symbols.len() as int, pointers[k]),
    ensures
        column_entries(symbols, absent, pointers.take(k + 1)) == if pointers[k] < 0 {
            column_entries(symbols, absent, pointers.take(k)).push(absent)
        } else if symbols.len() == 0 {
            column_entries(symbols, absent, pointers.take(k))
        } else {
            column_entries(symbols, absent, pointers.take(k)).push(symbols[pointers[k] as int])
        },
{
    let more = pointers.take(k + 1);
    let fewer = pointers.take(k);
    assert(more.drop_last() =~= fewer);
    if symbols.len() == 0 {
        reveal(Seq::filter);
        let negative = |p: i64| p < 0;
        assert(more.filter(negative) == if negative(more.last()) {
            fewer.filter(negative).push(more.last())
        } else {
            fewer.filter(negative)
        });
        if pointers[k] < 0 {
            assert(column_entries(symbols, absent, more) =~= column_entries(
                symbols,
                absent,
                fewer,
            ).push(absent));
        }
    } else {
        if pointers[k] < 0 {
            assert(column_entries(symbols, absent, more) =~= column_entries(
                symbols,
                absent,
                fewer,
            ).push(absent));
        } else {
            assert(column_entries(symbols, absent, more) =~= column_entries(
                symbols,
                absent,
                fewer,
            ).push(symbols[pointers[k] as int]));
        }
    }
}

impl Symbol {
    /// A copy of the symbol.
    pub fn duplicate(&self) -> (copy: Symbol)
        ensures
            copy@ == self@,
    {
        match self {
            Symbol::Absent => Symbol::Absent,
            Symbol::Integer(v) => Symbol::Integer(*v),
            Symbol::Double(bits) => Symbol::Double(*bits),
            Symbol::String(text) => Symbol::String(slice_to_vec(text.as_slice())),
            Symbol::TaggedIntString(v, text) => Symbol::TaggedIntString(
                *v,
                slice_to_vec(text.as_slice()),
            ),
            Symbol::TaggedDoubleString(bits, text) => Symbol::TaggedDoubleString(
                *bits,
                slice_to_vec(text.as_slice()),
            ),
        }
    }
}

/// Joins the symbols of the field `field_name` with its row indices into a
/// column of symbols: `Absent` for a negative index, else the symbol at the
/// index. For an empty symbol table the rows whose index is not negative are
/// left out.
///
/// Fails when an index points past the end of a symbol table that is not
/// empty; the error carries the row of the first such index.
pub fn match_symbols_with_rows(
    field_name: &str,
    symbols: &Vec<Symbol>,
    row_pointers: &Vec<i64>,
) -> (r: Result<Vec<Symbol>, QvdError>)
    ensures
        match r {
            Ok(column) => column_of(symbol_views(symbols@), SymbolView::Absent, row_pointers@)
                == Ok::<Seq<SymbolView>, (int, Fault)>(symbol_views(column@)),
            Err(e) => match column_of(symbol_views(symbols@), SymbolView::Absent, row_pointers@) {
                Ok(_) => false,
                Err((at, fault)) => is_fault(e, field_name@, at, fault),
            },
        },
{
    let ghost table = symbol_views(symbols@);
    let mut column: Vec<Symbol> = Vec::new();
    let mut k: usize = 0;
    assert(row_pointers@.take(0).filter(|p: i64| p < 0).len() == 0) by {
        reveal(Seq::filter);
    }
    assert(symbol_views(column@) =~= column_entries(
        table,
        SymbolView::Absent,
        row_pointers@.take(0),
    ));
    while k < row_pointers.len()
        invariant
            k <= row_pointers@.len(),
            table == symbol_views(symbols@),
            forall|j: int|
                0 <= j < k ==> !out_of_range(table.len() as int, #[trigger] row_pointers@[j]),
            symbol_views(column@) == column_entries(
                table,
                SymbolView::Absent,
                row_pointers@.take(k as int),
            ),
        decreases row_pointers@.len() - k,
    {
        let pointer = row_pointers[k];
        if pointer >= 0 && symbols.len() > 0 && pointer as u64 >= symbols.len() as u64 {
            proof {
                lemma_first_out_of_range_is(table.len() as int, row_pointers@, k as int);
            }
            return Err(
                QvdError::FormatStructure {
                    field: field_name.to_owned(),
                    offset: k,
                    fault: Fault::IndexOutOfRange,
                },
            );
        }
        proof {
            lemma_column_grows(table, SymbolView::Absent, row_pointers@, k as int);
        }
        let ghost before = symbol_views(column@);
        if pointer < 0 {
            column.push(Symbol::Absent);
            assert(symbol_views(column@) =~= before.push(SymbolView::Absent));
        } else if symbols.len() > 0 {
            let symbol = symbols[pointer as usize].duplicate();
            column.push(symbol);
            assert(symbol_views(column@) =~= before.push(table[pointer as int]));
        }
        k = k + 1;
    }
    proof {
        lemma_first_out_of_range_is(table.len() as int, row_pointers@, k as int);
        assert(row_pointers@.take(k as int) =~= row_pointers@);
    }
    Ok(column)
}

/// Joins the text forms of the symbols of the field `field_name` with its row
/// indices into a column of texts: nothing for a negative index, else the
/// text at the index. For an empty symbol table the rows whose index is not
/// negative are left out.
///
/// Fails when an index points past the end of a symbol table that is not
/// empty; the error carries the row of the first such index.
pub fn match_symbols_with_indexes(
    field_name: &str,
    symbols: &Vec<Option<String>>,
    pointers: &Vec<i64>,
) -> (r: Result<Vec<Option<String>>, QvdError>)
    ensures
        match r {
            Ok(column) => column_of(symbols@, None, pointers@) == Ok::<
                Seq<Option<String>>,
                (int, Fault),
            >(column@),
            Err(e) => match column_of(symbols@, None, pointers@) {
                Ok(_) => false,
                Err((at, fault)) => is_fault(e, field_name@, at, fault),
            },
        },
{
    let mut column: Vec<Option<String>> = Vec::new();
    let mut k: usize = 0;
    assert(pointers@.take(0).filter(|p: i64| p < 0).len() == 0) by {
        reveal(Seq::filter);
    }
    assert(column@ =~= column_entries(symbols@, None, pointers@.take(0)));
    while k < pointers.len()
        invariant
            k <= pointers@.len(),
            forall|j: int|
                0 <= j < k ==> !out_of_range(symbols@.len() as int, #[trigger] pointers@[j]),
            column@ == column_entries(symbols@, None, pointers@.take(k as int)),
        decreases pointers@.len() - k,
    {
        let pointer = pointers[k];
        if pointer >= 0 && symbols.len() > 0 && pointer as u64 >= symbols.len() as u64 {
            proof {
                lemma_first_out_of_range_is(symbols@.len() as int, pointers@, k as int);
            }
            return Err(
                QvdError::FormatStructure {
                    field: field_name.to_owned(),
                    offset: k,
                    fault: Fault::IndexOutOfRange,
                },
            );
        }
        proof {
            lemma_column_grows(symbols@, None, pointers@, k as int);
        }
        if pointer < 0 {
            column.push(None);
        } else if symbols.len() > 0 {
            let text = match &symbols[pointer as usize] {
                Some(text) => Some(text.clone()),
                None => None,
            };
            column.push(text);
        }
        k = k + 1;
    }
    proof {
        lemma_first_out_of_range_is(symbols@.len() as int, pointers@, k as int);
        assert(pointers@.take(k as int) =~= pointers@);
    }
    Ok(column)
}

} // verus!
