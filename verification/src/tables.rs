//! Named lookup tables: each table carries a one-letter tag and maps
//! case-normalized symbol names (register names, condition codes) to the
//! unsigned values their instruction fields encode.

use vstd::prelude::*;
use crate::text::bytes_eq;

verus! {

/// One symbol and the value it encodes as.
#[derive(Debug)]
pub struct TableEntry {
    pub name: Vec<u8>,
    pub value: u64,
}

/// One named lookup table: its tag and its symbols.
#[derive(Debug)]
pub struct NamedTable {
    pub tag: Vec<u8>,
    pub entries: Vec<TableEntry>,
}

/// The full set of named lookup tables.
#[derive(Debug)]
pub struct TypeTables {
    pub tables: Vec<NamedTable>,
}

/// The ghost value of one table's symbol list, entry for entry.
pub open spec fn entries_view(v: Vec<TableEntry>) -> Seq<(Seq<u8>, u64)> {
    v@.map_values(|e: TableEntry| (e.name@, e.value))
}

/// The ghost value of the table set: tag and symbol list per table.
pub open spec fn tables_view(t: TypeTables) -> Seq<(Seq<u8>, Seq<(Seq<u8>, u64)>)> {
    t.tables@.map_values(|n: NamedTable| (n.tag@, entries_view(n.entries)))
}

/// The symbol list under a tag, the latest table winning.
pub open spec fn spec_table_get(
    ts: Seq<(Seq<u8>, Seq<(Seq<u8>, u64)>)>,
    tag: Seq<u8>,
) -> Option<Seq<(Seq<u8>, u64)>>
    decreases ts.len(),
{
    if ts.len() == 0 {
        None
    } else if ts.last().0 == tag {
        Some(ts.last().1)
    } else {
        spec_table_get(ts.drop_last(), tag)
    }
}

/// The value under a symbol name, the latest entry winning.
pub open spec fn spec_entry_get(es: Seq<(Seq<u8>, u64)>, name: Seq<u8>) -> Option<u64>
    decreases es.len(),
{
    if es.len() == 0 {
        None
    } else if es.last().0 == name {
        Some(es.last().1)
    } else {
        spec_entry_get(es.drop_last(), name)
    }
}

/// Finds the table under a tag, the latest winning.
pub fn table_find<'a>(t: &'a TypeTables, tag: &[u8]) -> (r: Option<&'a NamedTable>)
    ensures
        match spec_table_get(tables_view(*t), tag@) {
            Some(es) => r is Some && entries_view(r->0.entries) == es && r->0.tag@ == tag@,
            None => r is None,
        },
{
    let ghost tv = tables_view(*t);
    let mut i: usize = t.tables.len();
    proof {
        assert(tv.take(t.tables@.len() as int) =~= tv);
    }
    while i > 0
        invariant
            0 <= i <= t.tables@.len(),
            tv == tables_view(*t),
            spec_table_get(tv, tag@) == spec_table_get(tv.take(i as int), tag@),
        decreases i,
    {
        i -= 1;
        proof {
            assert(tv.take(i + 1).last() == tv[i as int]);
            assert(tv.take(i + 1).drop_last() =~= tv.take(i as int));
        }
        if bytes_eq(t.tables[i].tag.as_slice(), tag) {
            return Some(&t.tables[i]);
        }
    }
    proof {
        assert(tv.take(0) =~= Seq::<(Seq<u8>, Seq<(Seq<u8>, u64)>)>::empty());
    }
    None
}

/// Finds the value a symbol encodes as, the latest entry winning.
pub fn entry_find(table: &NamedTable, name: &[u8]) -> (r: Option<u64>)
    ensures
        r == spec_entry_get(entries_view(table.entries), name@),
{
    let ghost ev = entries_view(table.entries);
    let mut i: usize = table.entries.len();
    proof {
        assert(ev.take(table.entries@.len() as int) =~= ev);
    }
    while i > 0
        invariant
            0 <= i <= table.entries@.len(),
            ev == entries_view(table.entries),
            spec_entry_get(ev, name@) == spec_entry_get(ev.take(i as int), name@),
        decreases i,
    {
        i -= 1;
        proof {
            assert(ev.take(i + 1).last() == ev[i as int]);
            assert(ev.take(i + 1).drop_last() =~= ev.take(i as int));
        }
        if bytes_eq(table.entries[i].name.as_slice(), name) {
            return Some(table.entries[i].value);
        }
    }
    proof {
        assert(ev.take(0) =~= Seq::<(Seq<u8>, u64)>::empty());
    }
    None
}

} // verus!
