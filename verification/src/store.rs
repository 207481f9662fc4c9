//! The in-memory table store.
//!
//! `MemoryStorage` keeps a schema catalog and a row store keyed by the
//! codec's physical keys, and implements the engine's read and write
//! capability contracts. Every mutating operation consumes the store and
//! hands it back beside the result, so a failed mutation never strands
//! the caller without a usable handle; on failure the store is returned
//! unchanged. Schema evolution is a declined capability: every
//! `AlterTable` method fails with `Unsupported` and changes nothing.

use vstd::prelude::*;

use crate::data::Row;
use crate::data::Schema;
use crate::data::SchemaV;
use crate::data::ValueV;
use crate::data::dup_row;
use crate::data::dup_schema;
use crate::error::StoreError;
use crate::keys::Key;
use crate::keys::KeyV;
use crate::keys::convert_key;
use crate::keys::dup_key;
use crate::keys::generate_key;
use crate::keys::table_name_ok;
use crate::keys::lemma_pkey_injective;
use crate::keys::key_lt;
use crate::keys::pkey_spec;
use crate::keys::table_ok;
use crate::keys::lemma_order_isomorphism;
use crate::lex::lex_lt;
use crate::lex::chars_eq;
use crate::lex::lex_compare_lt;
use crate::lex::lemma_lex_trichotomy;
use crate::lex::lemma_lex_transitive;

verus! {

/// One stored row, under its physical key.
struct DataEntry {
    table: String,
    key: Key,
    pkey: Vec<char>,
    row: Row,
}

/// The mathematical value of one stored row.
pub struct EntryV {
    pub table: Seq<char>,
    pub key: KeyV,
    pub pkey: Seq<char>,
    pub row: Seq<ValueV>,
}

impl View for DataEntry {
    type V = EntryV;

    closed spec fn view(&self) -> EntryV {
        EntryV { table: self.table@, key: self.key@, pkey: self.pkey@, row: self.row@ }
    }
}

/// A stored entry's physical key is the encoding of its table and key.
pub open spec fn wf_entry(e: EntryV) -> bool {
    table_ok(e.table) && e.pkey == pkey_spec(e.table, e.key)
}

/// Entries strictly ascending by physical key; hence keys are unique.
pub open spec fn sorted_es(es: Seq<EntryV>) -> bool {
    forall|i: int, j: int| 0 <= i < j < es.len() ==> lex_lt(es[i].pkey, es[j].pkey)
}

/// Schema entries carry pairwise distinct table names.
pub open spec fn schemas_unique(ss: Seq<SchemaV>) -> bool {
    forall|i: int, j: int|
        0 <= i < j < ss.len() ==> ss[i].table_name != ss[j].table_name
}

/// The first stored row under a physical key, if any.
pub open spec fn find_row(es: Seq<EntryV>, pk: Seq<char>) -> Option<Seq<ValueV>>
    decreases es.len(),
{
    if es.len() == 0 {
        None::<Seq<ValueV>>
    } else if es[0].pkey == pk {
        Some(es[0].row)
    } else {
        find_row(es.skip(1), pk)
    }
}

/// `find_row` finds exactly the indexed entries.
pub proof fn lemma_find_row_index(es: Seq<EntryV>, pk: Seq<char>)
    ensures
        match find_row(es, pk) {
            Some(r) => exists|i: int| 0 <= i < es.len() && es[i].pkey == pk && es[i].row == r,
            None => forall|i: int| 0 <= i < es.len() ==> es[i].pkey != pk,
        },
    decreases es.len(),
{
    if es.len() == 0 {
    } else if es[0].pkey == pk {
    } else {
        lemma_find_row_index(es.skip(1), pk);
        match find_row(es.skip(1), pk) {
            Some(r) => {
                let i = choose|i: int|
                    0 <= i < es.skip(1).len() && es.skip(1)[i].pkey == pk && es.skip(1)[i].row
                        == r;
                assert(es[i + 1].pkey == pk && es[i + 1].row == r);
            },
            None => {
                assert forall|i: int| 0 <= i < es.len() implies es[i].pkey != pk by {
                    if i > 0 {
                        assert(es[i] == es.skip(1)[i - 1]);
                    }
                }
            },
        }
    }
}

/// The view of a vector of stored entries.
spec fn es_view(v: Seq<DataEntry>) -> Seq<EntryV> {
    v.map_values(|x: DataEntry| x@)
}

/// The entry an auto-keyed insertion of `row` under identifier `id` makes.
pub open spec fn auto_entry(t: Seq<char>, id: u64, row: Seq<ValueV>) -> EntryV {
    EntryV { table: t, key: KeyV::U64(id), pkey: pkey_spec(t, KeyV::U64(id)), row }
}

/// The entry an explicit-keyed insertion of `row` under `k` makes.
pub open spec fn keyed_entry(t: Seq<char>, k: KeyV, row: Seq<ValueV>) -> EntryV {
    EntryV { table: t, key: k, pkey: pkey_spec(t, k), row }
}

/// No entry is stored under the physical key.
pub open spec fn no_key(es: Seq<EntryV>, pk: Seq<char>) -> bool {
    forall|i: int| 0 <= i < es.len() ==> (#[trigger] es[i]).pkey != pk
}

/// No schema entry carries the table name.
pub open spec fn no_schema(ss: Seq<SchemaV>, t: Seq<char>) -> bool {
    forall|i: int| 0 <= i < ss.len() ==> (#[trigger] ss[i]).table_name != t
}

/// Some schema entry carries the table name, and every row matches its
/// column count.
pub open spec fn rows_fit(ss: Seq<SchemaV>, t: Seq<char>, rows: Seq<Seq<ValueV>>) -> bool {
    exists|si: int|
        0 <= si < ss.len() && (#[trigger] ss[si]).table_name == t && (forall|q: int|
            0 <= q < rows.len() ==> (#[trigger] rows[q]).len() == ss[si].column_defs.len())
}

/// Find the index of the first entry stored under the physical key.
fn find_entry_idx(entries: &Vec<DataEntry>, pk: &Vec<char>) -> (r: Option<usize>)
    ensures
        match r {
            Some(i) => i < entries@.len() && es_view(entries@)[i as int].pkey == pk@,
            None => forall|j: int|
                0 <= j < entries@.len() ==> (#[trigger] es_view(entries@)[j]).pkey != pk@,
        },
{
    let mut i: usize = 0;
    while i < entries.len()
        invariant
            i <= entries.len(),
            forall|j: int| 0 <= j < i ==> (#[trigger] es_view(entries@)[j]).pkey != pk@,
        decreases entries.len() - i,
    {
        if chars_eq(&entries[i].pkey, pk) {
            proof {
                assert(es_view(entries@)[i as int] == entries@[i as int]@);
            }
            return Some(i);
        }
        proof {
            assert(es_view(entries@)[i as int] == entries@[i as int]@);
        }
        i = i + 1;
    }
    None
}

/// Find the index of the schema entry with the given table name.
fn find_schema_idx(schemas: &Vec<Schema>, name: &String) -> (r: Option<usize>)
    ensures
        match r {
            Some(i) => i < schemas@.len() && schemas@[i as int]@.table_name == name@,
            None => forall|j: int|
                0 <= j < schemas@.len() ==> (#[trigger] schemas@[j]@).table_name != name@,
        },
{
    let mut i: usize = 0;
    while i < schemas.len()
        invariant
            i <= schemas.len(),
            forall|j: int| 0 <= j < i ==> (#[trigger] schemas@[j]@).table_name != name@,
        decreases schemas.len() - i,
    {
        if schemas[i].table_name == *name {
            return Some(i);
        }
        i = i + 1;
    }
    None
}

/// Insert an entry at its ordered position, replacing the entry already
/// stored under the same physical key if there is one.
#[verifier::loop_isolation(false)]
#[verifier::rlimit(100)]
fn insert_entry(entries: &mut Vec<DataEntry>, e: DataEntry)
    requires
        sorted_es(es_view(old(entries)@)),
    ensures
        ({
            let oldv = es_view(old(entries)@);
            let newv = es_view(final(entries)@);
            &&& sorted_es(newv)
            &&& exists|i: int| 0 <= i < newv.len() && #[trigger] newv[i] == e@
            &&& forall|i: int|
                0 <= i < oldv.len() && (#[trigger] oldv[i]).pkey != e@.pkey ==> newv.contains(
                    oldv[i],
                )
            &&& forall|j: int|
                0 <= j < newv.len() ==> (#[trigger] newv[j]) == e@ || (oldv.contains(newv[j])
                    && newv[j].pkey != e@.pkey)
            &&& newv.len() == oldv.len() + (if exists|i: int|
                0 <= i < oldv.len() && (#[trigger] oldv[i]).pkey == e@.pkey {
                0int
            } else {
                1int
            })
        }),
{
    let ghost oldv = es_view(entries@);
    let mut i: usize = 0;
    while i < entries.len() && lex_compare_lt(&entries[i].pkey, &e.pkey)
        invariant
            i <= entries.len(),
            entries@ == old(entries)@,
            forall|j: int| 0 <= j < i ==> lex_lt((#[trigger] oldv[j]).pkey, e@.pkey),
        decreases entries.len() - i,
    {
        proof {
            assert(oldv[i as int] == entries@[i as int]@);
        }
        i = i + 1;
    }
    proof {
        assert(i < entries@.len() ==> !lex_lt(oldv[i as int].pkey, e@.pkey));
        assert(forall|j: int| 0 <= j < oldv.len() ==> oldv[j] == #[trigger] entries@[j]@);
    }
    if i < entries.len() && chars_eq(&entries[i].pkey, &e.pkey) {
        entries.remove(i);
        entries.insert(i, e);
        proof {
            let newv = es_view(entries@);
            assert(entries@ =~= old(entries)@.update(i as int, entries@[i as int]));
            assert forall|j: int| 0 <= j < newv.len() implies #[trigger] newv[j] == (if j
                == i as int {
                e@
            } else {
                oldv[j]
            }) by {
                assert(newv[j] == entries@[j]@);
            }
            assert(newv[i as int] == e@);
            assert(e@.pkey == oldv[i as int].pkey);
            assert forall|p: int, q: int| 0 <= p < q < newv.len() implies lex_lt(
                newv[p].pkey,
                newv[q].pkey,
            ) by {
                assert(newv[p].pkey == oldv[p].pkey);
                assert(newv[q].pkey == oldv[q].pkey);
            }
            assert forall|j: int|
                0 <= j < oldv.len() && (#[trigger] oldv[j]).pkey != e@.pkey implies newv.contains(
                oldv[j],
            ) by {
                assert(newv[j] == oldv[j]);
            }
            assert forall|j: int| 0 <= j < newv.len() implies (#[trigger] newv[j]) == e@ || (
            oldv.contains(newv[j]) && newv[j].pkey != e@.pkey) by {
                if j != i as int {
                    assert(newv[j] == oldv[j]);
                    if j < i as int {
                        lemma_lex_trichotomy(oldv[j].pkey, e@.pkey);
                    } else {
                        assert(lex_lt(oldv[i as int].pkey, oldv[j].pkey));
                        lemma_lex_trichotomy(oldv[j].pkey, e@.pkey);
                    }
                }
            }
        }
    } else {
        proof {
            if i < entries@.len() {
                lemma_lex_trichotomy(oldv[i as int].pkey, e@.pkey);
                assert(lex_lt(e@.pkey, oldv[i as int].pkey));
            }
        }
        entries.insert(i, e);
        proof {
            let newv = es_view(entries@);
            assert(newv.len() == oldv.len() + 1);
            assert forall|j: int| 0 <= j < newv.len() implies #[trigger] newv[j] == (if j
                < i as int {
                oldv[j]
            } else if j == i as int {
                e@
            } else {
                oldv[j - 1]
            }) by {
                assert(newv[j] == entries@[j]@);
                if j < i as int {
                    assert(entries@[j] == old(entries)@[j]);
                } else if j > i as int {
                    assert(entries@[j] == old(entries)@[j - 1]);
                }
            }
            assert forall|j: int|
                i as int <= j < oldv.len() implies lex_lt(e@.pkey, (#[trigger] oldv[j]).pkey) by {
                if j > i as int {
                    assert(lex_lt(oldv[i as int].pkey, oldv[j].pkey));
                    lemma_lex_transitive(e@.pkey, oldv[i as int].pkey, oldv[j].pkey);
                }
            }
            assert forall|p: int, q: int| 0 <= p < q < newv.len() implies lex_lt(
                newv[p].pkey,
                newv[q].pkey,
            ) by {
                if q < i as int {
                } else if p < i as int && q == i as int {
                    assert(newv[p] == oldv[p]);
                } else if p < i as int && q > i as int {
                    assert(newv[p] == oldv[p] && newv[q] == oldv[q - 1]);
                    if q - 1 == p {
                        assert(false);
                    }
                } else if p == i as int {
                    assert(newv[q] == oldv[q - 1]);
                } else {
                    assert(newv[p] == oldv[p - 1] && newv[q] == oldv[q - 1]);
                }
            }
            assert(newv[i as int] == e@);
            assert forall|j: int|
                0 <= j < oldv.len() && (#[trigger] oldv[j]).pkey != e@.pkey implies newv.contains(
                oldv[j],
            ) by {
                if j < i as int {
                    assert(newv[j] == oldv[j]);
                } else {
                    assert(newv[j + 1] == oldv[j]);
                }
            }
            assert forall|j: int| 0 <= j < newv.len() implies (#[trigger] newv[j]) == e@ || (
            oldv.contains(newv[j]) && newv[j].pkey != e@.pkey) by {
                if j < i as int {
                    assert(newv[j] == oldv[j]);
                    lemma_lex_trichotomy(oldv[j].pkey, e@.pkey);
                } else if j > i as int {
                    assert(newv[j] == oldv[j - 1]);
                    lemma_lex_trichotomy(e@.pkey, oldv[j - 1].pkey);
                }
            }
            assert forall|j: int|
                0 <= j < oldv.len() implies (#[trigger] oldv[j]).pkey != e@.pkey by {
                if j < i as int {
                    lemma_lex_trichotomy(oldv[j].pkey, e@.pkey);
                } else {
                    lemma_lex_trichotomy(e@.pkey, oldv[j].pkey);
                }
            }
        }
    }
}

/// The verified in-memory backend: a schema catalog, a row store ordered
/// by physical key, and the auto-increment identifier counter.
pub struct MemoryStorage {
    schemas: Vec<Schema>,
    entries: Vec<DataEntry>,
    id_ctr: u64,
}

impl MemoryStorage {
    /// The catalog's contents.
    pub closed spec fn schemas_view(self) -> Seq<SchemaV> {
        self.schemas@.map_values(|s: Schema| s@)
    }

    /// The row store's contents, ascending by physical key.
    pub closed spec fn entries_view(self) -> Seq<EntryV> {
        self.entries@.map_values(|e: DataEntry| e@)
    }

    /// The next auto-increment identifier to be issued.
    pub closed spec fn id_counter(self) -> u64 {
        self.id_ctr
    }

    /// The store's invariant.
    pub open spec fn wf(self) -> bool {
        &&& schemas_unique(self.schemas_view())
        &&& sorted_es(self.entries_view())
        &&& forall|i: int|
            0 <= i < self.entries_view().len() ==> wf_entry(#[trigger] self.entries_view()[i])
    }

    /// An empty store; the identifier counter starts at zero.
    pub fn new() -> (r: Self)
        ensures
            r.wf(),
            r.schemas_view() =~= Seq::<SchemaV>::empty(),
            r.entries_view() =~= Seq::<EntryV>::empty(),
            r.id_counter() == 0,
    {
        let r = MemoryStorage { schemas: Vec::new(), entries: Vec::new(), id_ctr: 0 };
        proof {
            assert(r.schemas_view() =~= Seq::<SchemaV>::empty());
            assert(r.entries_view() =~= Seq::<EntryV>::empty());
        }
        r
    }

    /// Issue the next auto-increment identifier.
    pub fn next_id(&mut self) -> (r: u64)
        requires
            old(self).id_counter() < u64::MAX,
        ensures
            r == old(self).id_counter(),
            final(self).id_counter() == old(self).id_counter() + 1,
            final(self).schemas_view() == old(self).schemas_view(),
            final(self).entries_view() == old(self).entries_view(),
            old(self).wf() ==> final(self).wf(),
    {
        let r = self.id_ctr;
        self.id_ctr = self.id_ctr + 1;
        r
    }

    /// All schema entries, in catalog order.
    pub fn fetch_all_schemas(&self) -> (r: Vec<Schema>)
        ensures
            r@.len() == self.schemas_view().len(),
            forall|i: int| 0 <= i < r@.len() ==> r@[i]@ == self.schemas_view()[i],
    {
        let mut r: Vec<Schema> = Vec::new();
        let mut i: usize = 0;
        while i < self.schemas.len()
            invariant
                i <= self.schemas.len(),
                r@.len() == i,
                forall|j: int| 0 <= j < i ==> r@[j]@ == self.schemas@[j]@,
            decreases self.schemas.len() - i,
        {
            r.push(dup_schema(&self.schemas[i]));
            i = i + 1;
        }
        r
    }

    /// The schema entry of the named table: exact match, no partial lookup.
    pub fn fetch_schema(&self, table_name: &str) -> (r: Option<Schema>)
        ensures
            match r {
                Some(s) => exists|i: int|
                    0 <= i < self.schemas_view().len() && #[trigger] self.schemas_view()[i].table_name
                        == table_name@ && s@ == self.schemas_view()[i],
                None => forall|i: int|
                    0 <= i < self.schemas_view().len() ==> #[trigger] self.schemas_view()[i].table_name
                        != table_name@,
            },
    {
        let want = table_name.to_owned();
        let mut i: usize = 0;
        while i < self.schemas.len()
            invariant
                i <= self.schemas.len(),
                want@ == table_name@,
                forall|j: int| 0 <= j < i ==> #[trigger] self.schemas@[j]@.table_name != table_name@,
            decreases self.schemas.len() - i,
        {
            if self.schemas[i].table_name == want {
                proof {
                    assert(self.schemas_view()[i as int] == self.schemas@[i as int]@);
                    assert(self.schemas_view()[i as int].table_name == table_name@);
                }
                return Some(dup_schema(&self.schemas[i]));
            }
            i = i + 1;
        }
        None
    }

    /// Point lookup: the row stored under the key in the named table.
    pub fn fetch_data(&self, table_name: &str, key: &Key) -> (r: Option<Row>)
        ensures
            match r {
                Some(row) => exists|i: int|
                    0 <= i < self.entries_view().len() && #[trigger] self.entries_view()[i].pkey
                        == pkey_spec(table_name@, key@) && row@ == self.entries_view()[i].row,
                None => forall|i: int|
                    0 <= i < self.entries_view().len() ==> #[trigger] self.entries_view()[i].pkey
                        != pkey_spec(table_name@, key@),
            },
    {
        let pkey = convert_key(table_name, key);
        let mut i: usize = 0;
        while i < self.entries.len()
            invariant
                i <= self.entries.len(),
                pkey@ == pkey_spec(table_name@, key@),
                forall|j: int| 0 <= j < i ==> #[trigger] self.entries@[j]@.pkey != pkey_spec(
                    table_name@,
                    key@,
                ),
            decreases self.entries.len() - i,
        {
            if chars_eq(&self.entries[i].pkey, &pkey) {
                proof {
                    assert(self.entries_view()[i as int] == self.entries@[i as int]@);
                    assert(self.entries_view()[i as int].pkey == pkey_spec(table_name@, key@));
                }
                return Some(dup_row(&self.entries[i].row));
            }
            i = i + 1;
        }
        None
    }

    /// Ordered full-table scan: every row of the named table, ascending by
    /// logical key, whatever order the entries were written in.
    #[verifier::loop_isolation(false)]
    #[verifier::rlimit(100)]
    pub fn scan_data(&self, table_name: &str) -> (r: Vec<(Key, Row)>)
        requires
            self.wf(),
            table_ok(table_name@),
        ensures
            forall|q: int|
                0 <= q < r@.len() ==> exists|i: int|
                    0 <= i < self.entries_view().len() && (#[trigger] self.entries_view()[i]).table
                        == table_name@ && self.entries_view()[i].key == (#[trigger] r@[q]).0@
                        && self.entries_view()[i].row == r@[q].1@,
            forall|i: int|
                0 <= i < self.entries_view().len() && (#[trigger] self.entries_view()[i]).table
                    == table_name@ ==> exists|q: int|
                    0 <= q < r@.len() && r@[q].0@ == self.entries_view()[i].key && r@[q].1@
                        == self.entries_view()[i].row,
            forall|p: int, q: int| 0 <= p < q < r@.len() ==> key_lt(#[trigger] r@[p].0@, #[trigger] r@[q].0@),
    {
        let want = table_name.to_owned();
        let mut r: Vec<(Key, Row)> = Vec::new();
        let mut i: usize = 0;
        while i < self.entries.len()
            invariant
                i <= self.entries.len(),
                forall|q: int|
                    0 <= q < r@.len() ==> exists|ii: int|
                        0 <= ii < i && (#[trigger] self.entries_view()[ii]).table == table_name@
                            && self.entries_view()[ii].key == (#[trigger] r@[q]).0@
                            && self.entries_view()[ii].row == r@[q].1@,
                forall|ii: int|
                    0 <= ii < i && (#[trigger] self.entries_view()[ii]).table == table_name@
                        ==> exists|q: int|
                        0 <= q < r@.len() && r@[q].0@ == self.entries_view()[ii].key && r@[q].1@
                            == self.entries_view()[ii].row,
                forall|p: int, q: int|
                    0 <= p < q < r@.len() ==> key_lt(#[trigger] r@[p].0@, #[trigger] r@[q].0@),
            decreases self.entries.len() - i,
        {
            if self.entries[i].table == want {
                let ghost prev = r@;
                let ghost cur = self.entries_view()[i as int];
                r.push((dup_key(&self.entries[i].key), dup_row(&self.entries[i].row)));
                proof {
                    assert(self.entries_view()[i as int] == self.entries@[i as int]@);
                    assert(cur.table == table_name@);
                    assert(r@[prev.len() as int].0@ == cur.key);
                    assert(r@[prev.len() as int].1@ == cur.row);
                    assert forall|p: int, q: int| 0 <= p < q < r@.len() implies key_lt(
                        #[trigger] r@[p].0@,
                        #[trigger] r@[q].0@,
                    ) by {
                        if q == r@.len() - 1 {
                            let ii = choose|ii: int|
                                0 <= ii < i && (#[trigger] self.entries_view()[ii]).table
                                    == table_name@ && self.entries_view()[ii].key == prev[p].0@
                                    && self.entries_view()[ii].row == prev[p].1@;
                            let ea = self.entries_view()[ii];
                            assert(lex_lt(ea.pkey, cur.pkey));
                            assert(wf_entry(ea) && wf_entry(cur));
                            lemma_order_isomorphism(table_name@, ea.key, cur.key);
                        } else {
                            assert(r@[p] == prev[p] && r@[q] == prev[q]);
                        }
                    }
                    assert forall|ii: int|
                        0 <= ii < i + 1 && (#[trigger] self.entries_view()[ii]).table
                            == table_name@ implies exists|q: int|
                        0 <= q < r@.len() && (#[trigger] r@[q]).0@ == self.entries_view()[ii].key
                            && r@[q].1@ == self.entries_view()[ii].row by {
                        if ii < i {
                            let q = choose|q: int|
                                0 <= q < prev.len() && (#[trigger] prev[q]).0@
                                    == self.entries_view()[ii].key && prev[q].1@
                                    == self.entries_view()[ii].row;
                            assert(r@[q] == prev[q]);
                        } else {
                            let q = prev.len() as int;
                            assert(r@[q].0@ == self.entries_view()[ii].key);
                            assert(r@[q].1@ == self.entries_view()[ii].row);
                        }
                    }
                }
            } else {
                proof {
                    assert(self.entries_view()[i as int] == self.entries@[i as int]@);
                    assert(self.entries_view()[i as int].table != table_name@);
                }
            }
            i = i + 1;
        }
        r
    }

    /// Create or wholesale-replace the schema entry for a table. A table
    /// name holding the separator is rejected, and the store returned
    /// unchanged.
    #[verifier::loop_isolation(false)]
    #[verifier::rlimit(100)]
    pub fn insert_schema(self, schema: Schema) -> (r: (Self, Result<(), StoreError>))
        requires
            self.wf(),
        ensures
            r.0.wf(),
            r.1 is Ok <==> table_ok(schema@.table_name),
            r.1 is Err ==> r.0 == self && r.1 == Err::<(), StoreError>(
                StoreError::InvalidTableName,
            ),
            r.1 is Ok ==> ({
                let oldss = self.schemas_view();
                let newss = r.0.schemas_view();
                &&& r.0.entries_view() == self.entries_view()
                &&& r.0.id_counter() == self.id_counter()
                &&& newss.contains(schema@)
                &&& forall|j: int|
                    0 <= j < oldss.len() && (#[trigger] oldss[j]).table_name
                        != schema@.table_name ==> newss.contains(oldss[j])
                &&& forall|j: int|
                    0 <= j < newss.len() ==> (#[trigger] newss[j]) == schema@ || (oldss.contains(
                        newss[j],
                    ) && newss[j].table_name != schema@.table_name)
            }),
    {
        if !table_name_ok(schema.table_name.as_str()) {
            return (self, Err(StoreError::InvalidTableName));
        }
        let ghost oldss = self.schemas_view();
        let ghost sv = schema@;
        let mut s = self;
        let idx = find_schema_idx(&s.schemas, &schema.table_name);
        match idx {
            Some(i) => {
                s.schemas.remove(i);
                s.schemas.insert(i, schema);
                proof {
                    let newss = s.schemas_view();
                    assert(s.schemas@ =~= self.schemas@.update(i as int, s.schemas@[i as int]));
                    assert forall|j: int| 0 <= j < newss.len() implies #[trigger] newss[j] == (
                    if j == i as int {
                        sv
                    } else {
                        oldss[j]
                    }) by {
                        assert(newss[j] == s.schemas@[j]@);
                    }
                    assert(newss[i as int] == sv);
                    assert forall|j: int|
                        0 <= j < oldss.len() && (#[trigger] oldss[j]).table_name
                            != sv.table_name implies newss.contains(oldss[j]) by {
                        assert(j != i as int);
                        assert(newss[j] == oldss[j]);
                    }
                    assert forall|j: int| 0 <= j < newss.len() implies (#[trigger] newss[j]) == sv
                        || (oldss.contains(newss[j]) && newss[j].table_name != sv.table_name) by {
                        if j != i as int {
                            assert(newss[j] == oldss[j]);
                            if j < i as int {
                                assert(oldss[j].table_name != oldss[i as int].table_name);
                            } else {
                                assert(oldss[i as int].table_name != oldss[j].table_name);
                            }
                        }
                    }
                    assert forall|a: int, b: int|
                        0 <= a < b < newss.len() implies newss[a].table_name
                        != newss[b].table_name by {
                        if a == i as int {
                            assert(newss[b] == oldss[b]);
                            assert(oldss[i as int].table_name == sv.table_name);
                        } else if b == i as int {
                            assert(newss[a] == oldss[a]);
                            assert(oldss[i as int].table_name == sv.table_name);
                        } else {
                            assert(newss[a] == oldss[a] && newss[b] == oldss[b]);
                        }
                    }
                    assert(schemas_unique(newss));
                }
                (s, Ok(()))
            },
            None => {
                s.schemas.push(schema);
                proof {
                    let newss = s.schemas_view();
                    assert(s.schemas@ =~= self.schemas@.push(s.schemas@[oldss.len() as int]));
                    assert forall|j: int| 0 <= j < newss.len() implies #[trigger] newss[j] == (
                    if j == oldss.len() as int {
                        sv
                    } else {
                        oldss[j]
                    }) by {
                        assert(newss[j] == s.schemas@[j]@);
                    }
                    assert(newss[oldss.len() as int] == sv);
                    assert forall|j: int|
                        0 <= j < oldss.len() && (#[trigger] oldss[j]).table_name
                            != sv.table_name implies newss.contains(oldss[j]) by {
                        assert(newss[j] == oldss[j]);
                    }
                    assert forall|a: int, b: int|
                        0 <= a < b < newss.len() implies newss[a].table_name
                        != newss[b].table_name by {
                        assert(oldss[a] == self.schemas@[a]@);
                        if b == oldss.len() as int {
                            assert(newss[a] == oldss[a]);
                            assert(self.schemas@[a]@.table_name != sv.table_name);
                        } else {
                            assert(newss[a] == oldss[a] && newss[b] == oldss[b]);
                        }
                    }
                    assert(schemas_unique(newss));
                }
                (s, Ok(()))
            },
        }
    }

    /// Remove a table's schema entry and, as one atomic unit, every row
    /// under the table's key namespace. Absence is not an error.
    #[verifier::loop_isolation(false)]
    #[verifier::rlimit(100)]
    pub fn delete_schema(self, table_name: &str) -> (r: (Self, Result<(), StoreError>))
        requires
            self.wf(),
            table_ok(table_name@),
        ensures
            r.0.wf(),
            r.1 is Ok,
            r.0.id_counter() == self.id_counter(),
            forall|j: int|
                0 <= j < r.0.schemas_view().len() ==> (#[trigger] r.0.schemas_view()[j]).table_name
                    != table_name@ && self.schemas_view().contains(r.0.schemas_view()[j]),
            forall|j: int|
                0 <= j < self.schemas_view().len() && (#[trigger] self.schemas_view()[j]).table_name
                    != table_name@ ==> r.0.schemas_view().contains(self.schemas_view()[j]),
            forall|j: int|
                0 <= j < r.0.entries_view().len() ==> (#[trigger] r.0.entries_view()[j]).table
                    != table_name@ && self.entries_view().contains(r.0.entries_view()[j]),
            forall|i: int|
                0 <= i < self.entries_view().len() && (#[trigger] self.entries_view()[i]).table
                    != table_name@ ==> r.0.entries_view().contains(self.entries_view()[i]),
    {
        let want = table_name.to_owned();
        let ghost oldss = self.schemas_view();
        let mut s = self;
        let idx = find_schema_idx(&s.schemas, &want);
        match idx {
            Some(i) => {
                s.schemas.remove(i);
                proof {
                    self.schemas@.remove_ensures(i as int);
                    let newss = s.schemas_view();
                    assert forall|j: int| 0 <= j < newss.len() implies #[trigger] newss[j] == (
                    if j < i as int {
                        oldss[j]
                    } else {
                        oldss[j + 1]
                    }) by {
                        assert(newss[j] == s.schemas@[j]@);
                        if j < i as int {
                            assert(s.schemas@[j] == self.schemas@[j]);
                        } else {
                            assert(s.schemas@[j] == self.schemas@[j + 1]);
                        }
                    }
                    assert(oldss[i as int].table_name == table_name@);
                    assert forall|j: int|
                        0 <= j < newss.len() implies (#[trigger] newss[j]).table_name
                        != table_name@ && oldss.contains(newss[j]) by {
                        if j < i as int {
                            assert(newss[j] == oldss[j]);
                            assert(oldss[j].table_name != oldss[i as int].table_name);
                        } else {
                            assert(newss[j] == oldss[j + 1]);
                            assert(oldss[i as int].table_name != oldss[j + 1].table_name);
                        }
                    }
                    assert forall|j: int|
                        0 <= j < oldss.len() && (#[trigger] oldss[j]).table_name
                            != table_name@ implies newss.contains(oldss[j]) by {
                        if j < i as int {
                            assert(newss[j] == oldss[j]);
                        } else {
                            assert(j != i as int);
                            assert(newss[j - 1] == oldss[j]);
                        }
                    }
                    assert(schemas_unique(newss));
                }
            },
            None => {},
        }
        let ghost orig = es_view(s.entries@);
        let ghost oldes = self.entries_view();
        let ghost cat = s.schemas@;
        proof {
            assert(orig =~= oldes);
        }
        let mut kept: Vec<DataEntry> = Vec::new();
        let ghost mut k: int = 0;
        proof {
            assert(es_view(s.entries@) =~= orig.skip(0));
        }
        while s.entries.len() > 0
            invariant
                s.id_ctr == self.id_counter(),
                s.schemas@ == cat,
                0 <= k <= orig.len(),
                es_view(s.entries@) =~= orig.skip(k),
                s.entries@.len() == orig.len() - k,
                sorted_es(es_view(kept@)),
                forall|j: int|
                    0 <= j < kept@.len() ==> (#[trigger] es_view(kept@)[j]).table != table_name@,
                forall|j: int|
                    0 <= j < kept@.len() ==> exists|ii: int|
                        0 <= ii < k && #[trigger] es_view(kept@)[j] == orig[ii],
                forall|ii: int|
                    0 <= ii < k && (#[trigger] orig[ii]).table != table_name@ ==> es_view(
                        kept@,
                    ).contains(orig[ii]),
            decreases s.entries@.len(),
        {
            let ghost pv = s.entries@;
            let e = s.entries.remove(0);
            proof {
                pv.remove_ensures(0);
                assert(s.entries@ =~= pv.skip(1));
                assert(e@ == pv[0]@);
                assert(es_view(pv)[0] == pv[0]@);
                assert(es_view(pv) =~= orig.skip(k));
                assert(e@ == orig.skip(k)[0]);
                assert(orig.skip(k)[0] == orig[k]);
                assert forall|j: int|
                    0 <= j < s.entries@.len() implies es_view(s.entries@)[j] == orig.skip(k + 1)[j]
                    by {
                    assert(es_view(s.entries@)[j] == s.entries@[j]@);
                    assert(s.entries@[j] == pv[j + 1]);
                    assert(pv[j + 1]@ == es_view(pv)[j + 1]);
                    assert(es_view(pv)[j + 1] == orig.skip(k)[j + 1]);
                    assert(orig.skip(k)[j + 1] == orig[k + 1 + j]);
                    assert(orig.skip(k + 1)[j] == orig[k + 1 + j]);
                }
                assert(es_view(s.entries@) =~= orig.skip(k + 1));
            }
            let ghost keptv = es_view(kept@);
            if e.table == want {
                proof {
                    assert(e@.table == table_name@);
                    k = k + 1;
                }
            } else {
                kept.push(e);
                proof {
                    let newk = es_view(kept@);
                    assert(newk =~= keptv.push(orig[k]));
                    assert(newk[keptv.len() as int] == orig[k]);
                    assert forall|p: int, q: int| 0 <= p < q < newk.len() implies lex_lt(
                        newk[p].pkey,
                        newk[q].pkey,
                    ) by {
                        if q == newk.len() - 1 {
                            let ii = choose|ii: int|
                                0 <= ii < k && #[trigger] keptv[p] == orig[ii];
                            assert(newk[p] == orig[ii]);
                            assert(lex_lt(orig[ii].pkey, orig[k].pkey));
                        } else {
                            assert(newk[p] == keptv[p] && newk[q] == keptv[q]);
                        }
                    }
                    assert forall|ii: int|
                        0 <= ii < k + 1 && (#[trigger] orig[ii]).table != table_name@ implies
                        newk.contains(orig[ii]) by {
                        if ii < k {
                            let q = choose|q: int|
                                0 <= q < keptv.len() && #[trigger] keptv[q] == orig[ii];
                            assert(newk[q] == orig[ii]);
                        } else {
                            assert(newk[keptv.len() as int] == orig[k]);
                        }
                    }
                    k = k + 1;
                }
            }
        }
        proof {
            assert(k == orig.len());
        }
        s.entries = kept;
        proof {
            let newes = s.entries_view();
            assert(newes =~= es_view(s.entries@));
            assert(sorted_es(newes));
            assert forall|j: int| 0 <= j < newes.len() implies wf_entry(#[trigger] newes[j]) by {
                let ii = choose|i2: int| 0 <= i2 < orig.len() && #[trigger] newes[j] == orig[i2];
            }
        }
        (s, Ok(()))
    }

    /// Append rows without explicit keys: each row is assigned a fresh
    /// auto-increment identifier and written under its encoding, all rows
    /// as one atomic unit. On any failure nothing is written and the store
    /// is returned unchanged.
    #[verifier::loop_isolation(false)]
    #[verifier::rlimit(100)]
    pub fn append_data(self, table_name: &str, rows: Vec<Row>) -> (r: (
        Self,
        Result<(), StoreError>,
    ))
        requires
            self.wf(),
            table_ok(table_name@),
        ensures
            r.0.wf(),
            r.1 is Err ==> r.0 == self,
            r.1 is Ok <==> rows_fit(
                self.schemas_view(),
                table_name@,
                rows@.map_values(|x: Row| x@),
            ) && self.id_counter() + rows@.len() <= u64::MAX && (forall|q: int|
                0 <= q < rows@.len() ==> no_key(
                    self.entries_view(),
                    #[trigger] pkey_spec(table_name@, KeyV::U64((self.id_counter() + q) as u64)),
                )),
            r.1 is Ok ==> ({
                let t = table_name@;
                let ctr = self.id_counter();
                let rv = rows@.map_values(|x: Row| x@);
                let newes = r.0.entries_view();
                &&& r.0.schemas_view() == self.schemas_view()
                &&& r.0.id_counter() == ctr + rows@.len()
                &&& newes.len() == self.entries_view().len() + rows@.len()
                &&& forall|q: int|
                    0 <= q < rv.len() ==> newes.contains(
                        #[trigger] auto_entry(t, (ctr + q) as u64, rv[q]),
                    )
                &&& forall|i: int|
                    0 <= i < self.entries_view().len() ==> newes.contains(
                        #[trigger] self.entries_view()[i],
                    )
                &&& forall|j: int|
                    0 <= j < newes.len() ==> self.entries_view().contains(#[trigger] newes[j])
                        || exists|q: int|
                        0 <= q < rv.len() && newes[j] == auto_entry(t, (ctr + q) as u64, rv[q])
            }),
            r.1 matches Err(e) ==> (e == StoreError::MissingSchema || e == StoreError::SchemaMismatch
                || e == StoreError::IdExhausted || e == StoreError::KeyTaken),
            r.1 == Err::<(), StoreError>(StoreError::MissingSchema) ==> no_schema(
                self.schemas_view(),
                table_name@,
            ),
            r.1 == Err::<(), StoreError>(StoreError::IdExhausted) ==> self.id_counter()
                + rows@.len() > u64::MAX,
    {
        let ghost t = table_name@;
        let ghost ctr0 = self.id_counter();
        let ghost rv = rows@.map_values(|x: Row| x@);
        let ghost n = rows@.len() as int;
        let want = table_name.to_owned();
        let s = self;
        let sidx = match find_schema_idx(&s.schemas, &want) {
            Some(i) => i,
            None => {
                return (s, Err(StoreError::MissingSchema));
            },
        };
        proof {
            assert(s.schemas_view()[sidx as int].table_name == t);
        }
        let arity = s.schemas[sidx].column_defs.len();
        let mut q: usize = 0;
        while q < rows.len()
            invariant
                q <= rows@.len(),
                arity == s.schemas_view()[sidx as int].column_defs.len(),
                forall|q2: int| 0 <= q2 < q ==> (#[trigger] rv[q2]).len() == arity,
            decreases rows@.len() - q,
        {
            if rows[q].values.len() != arity {
                proof {
                    assert(rv[q as int].len() != arity);
                    assert forall|si: int|
                        !(0 <= si < s.schemas_view().len()
                            && (#[trigger] s.schemas_view()[si]).table_name == t && (forall|
                            q2: int,
                        |
                            0 <= q2 < rv.len() ==> (#[trigger] rv[q2]).len()
                                == s.schemas_view()[si].column_defs.len())) by {
                        if 0 <= si < s.schemas_view().len() && s.schemas_view()[si].table_name
                            == t {
                            if si < sidx as int {
                                assert(s.schemas_view()[si].table_name != s.schemas_view()[sidx as int].table_name);
                            } else if si > sidx as int {
                                assert(s.schemas_view()[sidx as int].table_name != s.schemas_view()[si].table_name);
                            } else {
                                assert(rv[q as int].len() != s.schemas_view()[si].column_defs.len());
                            }
                        }
                    }
                }
                return (s, Err(StoreError::SchemaMismatch));
            }
            proof {
                assert(rv[q as int] == rows@[q as int]@);
            }
            q = q + 1;
        }
        if rows.len() as u64 > u64::MAX - s.id_ctr {
            return (s, Err(StoreError::IdExhausted));
        }
        let mut q: usize = 0;
        while q < rows.len()
            invariant
                q <= rows@.len(),
                ctr0 + n <= u64::MAX,
                forall|q2: int|
                    0 <= q2 < q ==> no_key(
                        s.entries_view(),
                        #[trigger] pkey_spec(t, KeyV::U64((ctr0 + q2) as u64)),
                    ),
            decreases rows@.len() - q,
        {
            let pk = generate_key(table_name, s.id_ctr + q as u64);
            match find_entry_idx(&s.entries, &pk) {
                Some(_) => {
                    return (s, Err(StoreError::KeyTaken));
                },
                None => {},
            }
            q = q + 1;
        }
        let mut s = s;
        let mut rows = rows;
        let ghost orig = s.entries_view();
        let ghost rows_orig = rv;
        let ghost cat = s.schemas@;
        let ghost mut k: int = 0;
        proof {
            assert(rows@.map_values(|x: Row| x@) =~= rows_orig.skip(0));
        }
        while rows.len() > 0
            invariant
                0 <= k <= n,
                n == rows_orig.len(),
                ctr0 + n <= u64::MAX,
                s.schemas@ == cat,
                s.id_ctr == ctr0 + k,
                rows@.map_values(|x: Row| x@) =~= rows_orig.skip(k),
                rows@.len() == n - k,
                sorted_es(s.entries_view()),
                forall|j: int|
                    0 <= j < s.entries_view().len() ==> wf_entry(#[trigger] s.entries_view()[j]),
                s.entries_view().len() == orig.len() + k,
                forall|q2: int|
                    0 <= q2 < k ==> s.entries_view().contains(
                        #[trigger] auto_entry(t, (ctr0 + q2) as u64, rows_orig[q2]),
                    ),
                forall|i: int|
                    0 <= i < orig.len() ==> s.entries_view().contains(#[trigger] orig[i]),
                forall|j: int|
                    0 <= j < s.entries_view().len() ==> orig.contains(
                        #[trigger] s.entries_view()[j],
                    ) || exists|q2: int|
                        0 <= q2 < k && s.entries_view()[j] == auto_entry(
                            t,
                            (ctr0 + q2) as u64,
                            rows_orig[q2],
                        ),
                forall|q2: int|
                    k <= q2 < n ==> no_key(
                        s.entries_view(),
                        #[trigger] pkey_spec(t, KeyV::U64((ctr0 + q2) as u64)),
                    ),
            decreases rows@.len(),
        {
            let ghost prev = s.entries_view();
            let ghost pvrows = rows@;
            let row = rows.remove(0);
            proof {
                pvrows.remove_ensures(0);
                assert(rows@ =~= pvrows.skip(1));
                assert(row@ == pvrows[0]@);
                assert(pvrows.map_values(|x: Row| x@)[0] == pvrows[0]@);
                assert(row@ == rows_orig[k]);
                let rcur = rows@.map_values(|x: Row| x@);
                assert forall|j: int|
                    0 <= j < rcur.len() implies #[trigger] rcur[j] == rows_orig.skip(k + 1)[j] by {
                    assert(rcur[j] == rows@[j]@);
                    assert(rows@[j] == pvrows[j + 1]);
                    assert(pvrows[j + 1]@ == pvrows.map_values(|x: Row| x@)[j + 1]);
                    assert(pvrows.map_values(|x: Row| x@)[j + 1] == rows_orig.skip(k)[j + 1]);
                }
                assert(rcur =~= rows_orig.skip(k + 1));
            }
            let id = s.id_ctr;
            s.id_ctr = s.id_ctr + 1;
            let pkey = generate_key(table_name, id);
            let e = DataEntry { table: want.clone(), key: Key::U64(id), pkey, row };
            proof {
                assert(want@ == t);
                assert(e@ == auto_entry(t, (ctr0 + k) as u64, rows_orig[k]));
                assert(no_key(prev, e@.pkey));
            }
            insert_entry(&mut s.entries, e);
            proof {
                let newes = s.entries_view();
                assert(newes == es_view(s.entries@));
                assert(!(exists|i: int|
                    0 <= i < prev.len() && (#[trigger] prev[i]).pkey == auto_entry(
                        t,
                        (ctr0 + k) as u64,
                        rows_orig[k],
                    ).pkey));
                assert(newes.len() == prev.len() + 1);
                assert forall|q2: int|
                    0 <= q2 < k + 1 implies newes.contains(
                    #[trigger] auto_entry(t, (ctr0 + q2) as u64, rows_orig[q2]),
                ) by {
                    if q2 < k {
                        let a = auto_entry(t, (ctr0 + q2) as u64, rows_orig[q2]);
                        let x = choose|x: int| 0 <= x < prev.len() && prev[x] == a;
                        lemma_pkey_injective(
                            t,
                            KeyV::U64((ctr0 + q2) as u64),
                            KeyV::U64((ctr0 + k) as u64),
                        );
                        assert(a.pkey != e@.pkey);
                        assert(newes.contains(prev[x]));
                    } else {
                        let x = choose|x: int| 0 <= x < newes.len() && #[trigger] newes[x] == e@;
                        assert(newes.contains(e@));
                    }
                }
                assert forall|i: int|
                    0 <= i < orig.len() implies newes.contains(#[trigger] orig[i]) by {
                    let x = choose|x: int| 0 <= x < prev.len() && prev[x] == orig[i];
                    assert(prev[x].pkey != e@.pkey);
                    assert(newes.contains(prev[x]));
                }
                assert forall|j: int|
                    0 <= j < newes.len() implies orig.contains(#[trigger] newes[j]) || exists|
                    q2: int,
                |
                    0 <= q2 < k + 1 && newes[j] == auto_entry(
                        t,
                        (ctr0 + q2) as u64,
                        rows_orig[q2],
                    ) by {
                    if newes[j] == e@ {
                        assert(newes[j] == auto_entry(t, (ctr0 + k) as u64, rows_orig[k]));
                    } else {
                        assert(prev.contains(newes[j]));
                        let x = choose|x: int| 0 <= x < prev.len() && prev[x] == newes[j];
                    }
                }
                assert forall|q2: int|
                    k + 1 <= q2 < n implies no_key(
                    newes,
                    #[trigger] pkey_spec(t, KeyV::U64((ctr0 + q2) as u64)),
                ) by {
                    let pk2 = pkey_spec(t, KeyV::U64((ctr0 + q2) as u64));
                    assert forall|j: int|
                        0 <= j < newes.len() implies (#[trigger] newes[j]).pkey != pk2 by {
                        if newes[j] == e@ {
                            lemma_pkey_injective(
                                t,
                                KeyV::U64((ctr0 + k) as u64),
                                KeyV::U64((ctr0 + q2) as u64),
                            );
                        } else {
                            assert(prev.contains(newes[j]));
                            let x = choose|x: int| 0 <= x < prev.len() && prev[x] == newes[j];
                            assert(no_key(prev, pk2));
                        }
                    }
                }
                assert forall|j: int|
                    0 <= j < newes.len() implies wf_entry(#[trigger] newes[j]) by {
                    if newes[j] != e@ {
                        assert(prev.contains(newes[j]));
                        let x = choose|x: int| 0 <= x < prev.len() && prev[x] == newes[j];
                    }
                }
                k = k + 1;
            }
        }
        proof {
            assert(k == n);
            assert(rows_fit(self.schemas_view(), t, rv)) by {
                assert(forall|q2: int| 0 <= q2 < n ==> (#[trigger] rv[q2]).len() == arity);
            }
        }
        (s, Ok(()))
    }

    /// Write explicit (key, row) pairs, creating or overwriting each, all
    /// as one atomic unit. On any failure nothing is written and the store
    /// is returned unchanged.
    #[verifier::loop_isolation(false)]
    #[verifier::rlimit(100)]
    pub fn insert_data(self, table_name: &str, rows: Vec<(Key, Row)>) -> (r: (
        Self,
        Result<(), StoreError>,
    ))
        requires
            self.wf(),
            table_ok(table_name@),
        ensures
            r.0.wf(),
            r.1 is Err ==> r.0 == self,
            r.1 is Ok <==> rows_fit(
                self.schemas_view(),
                table_name@,
                rows@.map_values(|x: (Key, Row)| x.1@),
            ),
            r.1 matches Err(e) ==> (e == StoreError::MissingSchema
                || e == StoreError::SchemaMismatch),
            r.1 == Err::<(), StoreError>(StoreError::MissingSchema) ==> no_schema(
                self.schemas_view(),
                table_name@,
            ),
            r.1 is Ok ==> ({
                let t = table_name@;
                let kv = rows@.map_values(|x: (Key, Row)| x.0@);
                let rv = rows@.map_values(|x: (Key, Row)| x.1@);
                let newes = r.0.entries_view();
                &&& r.0.schemas_view() == self.schemas_view()
                &&& r.0.id_counter() == self.id_counter()
                &&& forall|q: int|
                    0 <= q < kv.len() && (forall|q2: int| q < q2 < kv.len() ==> kv[q2] != kv[q])
                        ==> newes.contains(#[trigger] keyed_entry(t, kv[q], rv[q]))
                &&& forall|i: int|
                    0 <= i < self.entries_view().len() && (forall|q: int|
                        0 <= q < kv.len() ==> (#[trigger] self.entries_view()[i]).pkey
                            != pkey_spec(t, kv[q])) ==> newes.contains(self.entries_view()[i])
                &&& forall|j: int|
                    0 <= j < newes.len() ==> self.entries_view().contains(#[trigger] newes[j])
                        || exists|q: int| 0 <= q < kv.len() && newes[j] == keyed_entry(t, kv[q], rv[q])
            }),
    {
        let ghost t = table_name@;
        let ghost kv = rows@.map_values(|x: (Key, Row)| x.0@);
        let ghost rv = rows@.map_values(|x: (Key, Row)| x.1@);
        let ghost n = rows@.len() as int;
        let want = table_name.to_owned();
        let s = self;
        let sidx = match find_schema_idx(&s.schemas, &want) {
            Some(i) => i,
            None => {
                return (s, Err(StoreError::MissingSchema));
            },
        };
        proof {
            assert(s.schemas_view()[sidx as int].table_name == t);
        }
        let arity = s.schemas[sidx].column_defs.len();
        let mut q: usize = 0;
        while q < rows.len()
            invariant
                q <= rows@.len(),
                arity == s.schemas_view()[sidx as int].column_defs.len(),
                forall|q2: int| 0 <= q2 < q ==> (#[trigger] rv[q2]).len() == arity,
            decreases rows@.len() - q,
        {
            if rows[q].1.values.len() != arity {
                proof {
                    assert(rv[q as int].len() != arity);
                    assert forall|si: int|
                        !(0 <= si < s.schemas_view().len()
                            && (#[trigger] s.schemas_view()[si]).table_name == t && (forall|
                            q2: int,
                        |
                            0 <= q2 < rv.len() ==> (#[trigger] rv[q2]).len()
                                == s.schemas_view()[si].column_defs.len())) by {
                        if 0 <= si < s.schemas_view().len() && s.schemas_view()[si].table_name
                            == t {
                            if si < sidx as int {
                                assert(s.schemas_view()[si].table_name != s.schemas_view()[sidx as int].table_name);
                            } else if si > sidx as int {
                                assert(s.schemas_view()[sidx as int].table_name != s.schemas_view()[si].table_name);
                            } else {
                                assert(rv[q as int].len() != s.schemas_view()[si].column_defs.len());
                            }
                        }
                    }
                }
                return (s, Err(StoreError::SchemaMismatch));
            }
            proof {
                assert(rv[q as int] == rows@[q as int].1@);
            }
            q = q + 1;
        }
        let mut s = s;
        let mut rows = rows;
        let ghost orig = s.entries_view();
        let ghost cat = s.schemas@;
        let ghost mut k: int = 0;
        while rows.len() > 0
            invariant
                0 <= k <= n,
                n == kv.len() && n == rv.len(),
                s.schemas@ == cat,
                s.id_ctr == self.id_counter(),
                rows@.len() == n - k,
                forall|j: int| 0 <= j < rows@.len() ==> (#[trigger] rows@[j]).0@ == kv[k + j]
                    && rows@[j].1@ == rv[k + j],
                sorted_es(s.entries_view()),
                forall|j: int|
                    0 <= j < s.entries_view().len() ==> wf_entry(#[trigger] s.entries_view()[j]),
                forall|q2: int|
                    0 <= q2 < k && (forall|q3: int| q2 < q3 < k ==> kv[q3] != kv[q2])
                        ==> s.entries_view().contains(#[trigger] keyed_entry(t, kv[q2], rv[q2])),
                forall|i: int|
                    0 <= i < orig.len() && (forall|q2: int|
                        0 <= q2 < n ==> (#[trigger] orig[i]).pkey != pkey_spec(t, kv[q2]))
                        ==> s.entries_view().contains(orig[i]),
                forall|j: int|
                    0 <= j < s.entries_view().len() ==> orig.contains(
                        #[trigger] s.entries_view()[j],
                    ) || exists|q2: int|
                        0 <= q2 < k && s.entries_view()[j] == keyed_entry(t, kv[q2], rv[q2]),
            decreases rows@.len(),
        {
            let ghost prev = s.entries_view();
            let ghost pvrows = rows@;
            let (key, row) = rows.remove(0);
            proof {
                pvrows.remove_ensures(0);
                assert(rows@ =~= pvrows.skip(1));
                assert(key@ == kv[k] && row@ == rv[k]);
            }
            let pkey = convert_key(table_name, &key);
            let e = DataEntry { table: want.clone(), key, pkey, row };
            proof {
                assert(want@ == t);
                assert(e@ == keyed_entry(t, kv[k], rv[k]));
            }
            insert_entry(&mut s.entries, e);
            proof {
                let newes = s.entries_view();
                assert forall|q2: int|
                    0 <= q2 < k + 1 && (forall|q3: int| q2 < q3 < k + 1 ==> kv[q3] != kv[q2])
                        implies newes.contains(#[trigger] keyed_entry(t, kv[q2], rv[q2])) by {
                    if q2 < k {
                        assert(kv[k] != kv[q2]);
                        let a = keyed_entry(t, kv[q2], rv[q2]);
                        assert(prev.contains(a));
                        let x = choose|x: int| 0 <= x < prev.len() && prev[x] == a;
                        lemma_pkey_injective(t, kv[q2], kv[k]);
                        assert(prev[x].pkey != e@.pkey);
                        assert(newes.contains(prev[x]));
                    } else {
                        assert(newes.contains(e@));
                    }
                }
                assert forall|i: int|
                    0 <= i < orig.len() && (forall|q2: int|
                        0 <= q2 < n ==> (#[trigger] orig[i]).pkey != pkey_spec(t, kv[q2]))
                        implies newes.contains(orig[i]) by {
                    assert(prev.contains(orig[i]));
                    let x = choose|x: int| 0 <= x < prev.len() && prev[x] == orig[i];
                    assert(orig[i].pkey != pkey_spec(t, kv[k]));
                    assert(newes.contains(prev[x]));
                }
                assert forall|j: int|
                    0 <= j < newes.len() implies orig.contains(#[trigger] newes[j]) || exists|
                    q2: int,
                |
                    0 <= q2 < k + 1 && newes[j] == keyed_entry(t, kv[q2], rv[q2]) by {
                    if newes[j] == e@ {
                        assert(newes[j] == keyed_entry(t, kv[k], rv[k]));
                    } else {
                        assert(prev.contains(newes[j]));
                        let x = choose|x: int| 0 <= x < prev.len() && prev[x] == newes[j];
                    }
                }
                assert forall|j: int|
                    0 <= j < newes.len() implies wf_entry(#[trigger] newes[j]) by {
                    if newes[j] != e@ {
                        assert(prev.contains(newes[j]));
                        let x = choose|x: int| 0 <= x < prev.len() && prev[x] == newes[j];
                    }
                }
                k = k + 1;
            }
        }
        proof {
            assert(k == n);
            assert(rows_fit(self.schemas_view(), t, rv)) by {
                assert(forall|q2: int| 0 <= q2 < n ==> (#[trigger] rv[q2]).len() == arity);
            }
        }
        (s, Ok(()))
    }

    /// Remove the named rows as one atomic unit; a key with no row stored
    /// under it is not an error.
    #[verifier::loop_isolation(false)]
    #[verifier::rlimit(100)]
    pub fn delete_data(self, table_name: &str, keys: Vec<Key>) -> (r: (
        Self,
        Result<(), StoreError>,
    ))
        requires
            self.wf(),
            table_ok(table_name@),
        ensures
            r.0.wf(),
            r.1 is Ok,
            r.0.schemas_view() == self.schemas_view(),
            r.0.id_counter() == self.id_counter(),
            forall|q: int|
                0 <= q < keys@.len() ==> no_key(
                    r.0.entries_view(),
                    #[trigger] pkey_spec(table_name@, keys@[q]@),
                ),
            forall|i: int|
                0 <= i < self.entries_view().len() && (forall|q: int|
                    0 <= q < keys@.len() ==> (#[trigger] self.entries_view()[i]).pkey != pkey_spec(
                        table_name@,
                        keys@[q]@,
                    )) ==> r.0.entries_view().contains(self.entries_view()[i]),
            forall|j: int|
                0 <= j < r.0.entries_view().len() ==> self.entries_view().contains(
                    #[trigger] r.0.entries_view()[j],
                ),
    {
        let ghost t = table_name@;
        let ghost kv = keys@.map_values(|x: Key| x@);
        let ghost n = keys@.len() as int;
        let mut s = self;
        let ghost orig = s.entries_view();
        let ghost cat = s.schemas@;
        let mut q: usize = 0;
        while q < keys.len()
            invariant
                q <= keys@.len(),
                s.schemas@ == cat,
                s.id_ctr == self.id_counter(),
                sorted_es(s.entries_view()),
                forall|j: int|
                    0 <= j < s.entries_view().len() ==> wf_entry(#[trigger] s.entries_view()[j]),
                forall|q2: int|
                    0 <= q2 < q ==> no_key(
                        s.entries_view(),
                        #[trigger] pkey_spec(t, keys@[q2]@),
                    ),
                forall|i: int|
                    0 <= i < orig.len() && (forall|q2: int|
                        0 <= q2 < keys@.len() ==> (#[trigger] orig[i]).pkey != pkey_spec(
                            t,
                            keys@[q2]@,
                        )) ==> s.entries_view().contains(orig[i]),
                forall|j: int|
                    0 <= j < s.entries_view().len() ==> orig.contains(
                        #[trigger] s.entries_view()[j],
                    ),
            decreases keys@.len() - q,
        {
            let pk = convert_key(table_name, &keys[q]);
            let ghost prev = s.entries_view();
            match find_entry_idx(&s.entries, &pk) {
                Some(i) => {
                    s.entries.remove(i);
                    proof {
                        prev.remove_ensures(i as int);
                        let newes = s.entries_view();
                        assert forall|j: int|
                            0 <= j < newes.len() implies #[trigger] newes[j] == (if j < i as int {
                            prev[j]
                        } else {
                            prev[j + 1]
                        }) by {
                            assert(newes[j] == s.entries@[j]@);
                        }
                        assert forall|j: int|
                            0 <= j < newes.len() implies (#[trigger] newes[j]).pkey != pk@ by {
                            if j < i as int {
                                assert(lex_lt(prev[j].pkey, prev[i as int].pkey));
                                lemma_lex_trichotomy(prev[j].pkey, prev[i as int].pkey);
                            } else {
                                assert(lex_lt(prev[i as int].pkey, prev[j + 1].pkey));
                                lemma_lex_trichotomy(prev[i as int].pkey, prev[j + 1].pkey);
                            }
                        }
                        assert forall|q2: int|
                            0 <= q2 < q + 1 implies no_key(
                            newes,
                            #[trigger] pkey_spec(t, keys@[q2]@),
                        ) by {
                            let pk2 = pkey_spec(t, keys@[q2]@);
                            assert forall|j: int|
                                0 <= j < newes.len() implies (#[trigger] newes[j]).pkey != pk2 by {
                                if q2 < q as int {
                                    if j < i as int {
                                        assert(newes[j] == prev[j]);
                                    } else {
                                        assert(newes[j] == prev[j + 1]);
                                    }
                                } else {
                                    assert(newes[j].pkey != pk@);
                                }
                            }
                        }
                        assert forall|i2: int|
                            0 <= i2 < orig.len() && (forall|q2: int|
                                0 <= q2 < keys@.len() ==> (#[trigger] orig[i2]).pkey != pkey_spec(
                                    t,
                                    keys@[q2]@,
                                )) implies newes.contains(orig[i2]) by {
                            assert(prev.contains(orig[i2]));
                            let x = choose|x: int| 0 <= x < prev.len() && prev[x] == orig[i2];
                            assert(orig[i2].pkey != pkey_spec(t, keys@[q as int]@));
                            assert(x != i as int);
                            if x < i as int {
                                assert(newes[x] == prev[x]);
                            } else {
                                assert(newes[x - 1] == prev[x]);
                            }
                        }
                        assert forall|j: int|
                            0 <= j < newes.len() implies orig.contains(
                            #[trigger] newes[j],
                        ) by {
                            if j < i as int {
                                assert(newes[j] == prev[j]);
                            } else {
                                assert(newes[j] == prev[j + 1]);
                            }
                        }
                        assert forall|p2: int, q2: int|
                            0 <= p2 < q2 < newes.len() implies lex_lt(
                            newes[p2].pkey,
                            newes[q2].pkey,
                        ) by {
                            if q2 < i as int {
                            } else if p2 < i as int {
                                assert(newes[p2] == prev[p2] && newes[q2] == prev[q2 + 1]);
                            } else {
                                assert(newes[p2] == prev[p2 + 1] && newes[q2] == prev[q2 + 1]);
                            }
                        }
                        assert forall|j: int|
                            0 <= j < newes.len() implies wf_entry(#[trigger] newes[j]) by {
                            if j < i as int {
                                assert(newes[j] == prev[j]);
                            } else {
                                assert(newes[j] == prev[j + 1]);
                            }
                        }
                    }
                },
                None => {
                    proof {
                        assert forall|q2: int|
                            0 <= q2 < q + 1 implies no_key(
                            s.entries_view(),
                            #[trigger] pkey_spec(t, keys@[q2]@),
                        ) by {
                            if q2 == q as int {
                                assert forall|j: int|
                                    0 <= j < s.entries_view().len() implies (
                                #[trigger] s.entries_view()[j]).pkey != pkey_spec(
                                    t,
                                    keys@[q2]@,
                                ) by {
                                    assert(es_view(s.entries@)[j] == s.entries_view()[j]);
                                }
                            }
                        }
                    }
                },
            }
            q = q + 1;
        }
        (s, Ok(()))
    }

    /// Every AlterTable capability is declined: the store is handed back
    /// untouched beside an `Unsupported` failure.
    pub fn rename_schema(self, table_name: &str, new_table_name: &str) -> (r: (
        Self,
        Result<(), StoreError>,
    ))
        ensures
            r.0 == self,
            r.1 == Err::<(), StoreError>(StoreError::Unsupported),
    {
        let _ = table_name;
        let _ = new_table_name;
        (self, Err(StoreError::Unsupported))
    }

    /// Declined; see `rename_schema`.
    pub fn rename_column(self, table_name: &str, old_column_name: &str, new_column_name: &str) -> (r:
        (Self, Result<(), StoreError>))
        ensures
            r.0 == self,
            r.1 == Err::<(), StoreError>(StoreError::Unsupported),
    {
        let _ = table_name;
        let _ = old_column_name;
        let _ = new_column_name;
        (self, Err(StoreError::Unsupported))
    }

    /// Declined; see `rename_schema`.
    pub fn add_column(self, table_name: &str, column_def: crate::data::ColumnDef) -> (r: (
        Self,
        Result<(), StoreError>,
    ))
        ensures
            r.0 == self,
            r.1 == Err::<(), StoreError>(StoreError::Unsupported),
    {
        let _ = table_name;
        let _ = column_def;
        (self, Err(StoreError::Unsupported))
    }

    /// Declined; see `rename_schema`.
    pub fn drop_column(self, table_name: &str, column_name: &str, if_exists: bool) -> (r: (
        Self,
        Result<(), StoreError>,
    ))
        ensures
            r.0 == self,
            r.1 == Err::<(), StoreError>(StoreError::Unsupported),
    {
        let _ = table_name;
        let _ = column_name;
        let _ = if_exists;
        (self, Err(StoreError::Unsupported))
    }
}


/// The identifier to seed a reopened store's counter with: one past the
/// greatest auto-issued identifier among the keys found in the data
/// namespace, so that no identifier is ever issued twice — seeding from a
/// row count would reissue identifiers once any row had been deleted.
pub fn id_seed_from_keys(keys: &Vec<Key>) -> (r: u64)
    ensures
        forall|i: int|
            0 <= i < keys@.len() ==> match (#[trigger] keys@[i])@ {
                KeyV::U64(v) => v < u64::MAX ==> r > v,
                _ => true,
            },
        r == 0 || exists|i: int|
            0 <= i < keys@.len() && ((#[trigger] keys@[i])@ matches KeyV::U64(v) && r <= v + 1),
{
    let mut r: u64 = 0;
    let mut i: usize = 0;
    while i < keys.len()
        invariant
            i <= keys@.len(),
            forall|j: int|
                0 <= j < i ==> match (#[trigger] keys@[j])@ {
                    KeyV::U64(v) => v < u64::MAX ==> r > v,
                    _ => true,
                },
            r == 0 || exists|j: int|
                0 <= j < keys@.len() && ((#[trigger] keys@[j])@ matches KeyV::U64(v) && r <= v + 1),
        decreases keys@.len() - i,
    {
        match &keys[i] {
            Key::U64(v) => {
                if *v >= r {
                    if *v < u64::MAX {
                        r = *v + 1;
                    } else {
                        r = u64::MAX;
                    }
                    proof {
                        assert(keys@[i as int]@ matches KeyV::U64(w) && r <= w + 1);
                    }
                }
            },
            _ => {},
        }
        i = i + 1;
    }
    r
}

/// Schema-delete cascades: once no entry of a table remains, a point
/// lookup in that table finds nothing, whatever key is asked for.
pub proof fn lemma_cascade_empties_table(es: Seq<EntryV>, t: Seq<char>, k: KeyV)
    requires
        table_ok(t),
        forall|j: int| 0 <= j < es.len() ==> (#[trigger] es[j]).table != t,
        forall|j: int| 0 <= j < es.len() ==> wf_entry(#[trigger] es[j]),
    ensures
        find_row(es, pkey_spec(t, k)) is None,
        no_key(es, pkey_spec(t, k)),
{
    assert forall|j: int| 0 <= j < es.len() implies (#[trigger] es[j]).pkey != pkey_spec(t, k) by {
        crate::keys::lemma_namespace_isolation(es[j].table, t, es[j].key, k);
    }
    if find_row(es, pkey_spec(t, k)) is Some {
        lemma_find_row_index(es, pkey_spec(t, k));
        let i = choose|i: int|
            0 <= i < es.len() && es[i].pkey == pkey_spec(t, k) && es[i].row == find_row(
                es,
                pkey_spec(t, k),
            )->Some_0;
        assert(false);
    }
}

} // verus!
