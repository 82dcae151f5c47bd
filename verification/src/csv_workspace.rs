//! A set of CSV files that can reference each other through foreign keys.

use crate::csv_cached::{
    index_state, row_hashes, rows_validated, set_slice, slice_or_empty, validation_ready, CachedCsv,
    CsvCachingError, SliceView,
};
use crate::csv_reader::{columns_below, OkRow};
use crate::csv_schema::{all_names_known, spec_selection};
use crate::csv_cell_validators::{rules_total, FloatVerdict};
use crate::csv_schema::CsvSchema;
use crate::csv_reader::str_eq;
use vstd::prelude::*;

verus! {

/// The cached files of a workspace, by file name.
pub struct CsvMapping {
    entries: Vec<(String, CachedCsv)>,
}

impl CsvMapping {
    /// The names, in the order the files were added.
    pub closed spec fn names(&self) -> Seq<Seq<char>> {
        self.entries@.map_values(|e: (String, CachedCsv)| e.0@)
    }

    /// No name occurs twice.
    pub closed spec fn wf(&self) -> bool {
        entries_distinct(self.entries@)
    }
}

/// No name occurs twice in a list of named files.
pub closed spec fn entries_distinct(es: Seq<(String, CachedCsv)>) -> bool {
    forall|i: int, j: int| 0 <= i < j < es.len() ==> es[i].0@ != es[j].0@
}

/// A list of named files as a map from name to file.
pub closed spec fn entries_map(es: Seq<(String, CachedCsv)>) -> Map<Seq<char>, CachedCsv> {
    Map::new(
        |k: Seq<char>| exists|i: int| 0 <= i < es.len() && es[i].0@ == k,
        |k: Seq<char>| es[choose|i: int| 0 <= i < es.len() && es[i].0@ == k].1,
    )
}

/// Replacing the file at position `i`, keeping its name, keeps the names
/// distinct and holds the new file under that name.
proof fn lemma_replace_entry(es: Seq<(String, CachedCsv)>, i: int, v: CachedCsv)
    requires
        entries_distinct(es),
        0 <= i < es.len(),
    ensures
        entries_distinct(es.update(i, (es[i].0, v))),
        entries_map(es.update(i, (es[i].0, v))) == entries_map(es).insert(es[i].0@, v),
{
    let ns = es.update(i, (es[i].0, v));
    let k = es[i].0@;
    assert forall|a: int, b: int| 0 <= a < b < ns.len() implies ns[a].0@ != ns[b].0@ by {
        assert(es[a].0@ != es[b].0@);
    }
    assert forall|q: Seq<char>| #![auto] entries_map(ns).contains_key(q) <==> entries_map(es).insert(k, v).contains_key(q) by {
        if entries_map(es).contains_key(q) {
            let j = choose|j: int| 0 <= j < es.len() && es[j].0@ == q;
            assert(ns[j].0@ == q);
        }
        if q == k {
            assert(ns[i].0@ == q);
        }
        if entries_map(ns).contains_key(q) {
            let j = choose|j: int| 0 <= j < ns.len() && ns[j].0@ == q;
            assert(es[j].0@ == q);
        }
    }
    assert forall|q: Seq<char>| #[trigger] entries_map(ns).contains_key(q) implies entries_map(ns)[q] == entries_map(es).insert(k, v)[q] by {
        let j = choose|j: int| 0 <= j < ns.len() && ns[j].0@ == q;
        let jo = choose|j: int| 0 <= j < es.len() && es[j].0@ == q;
        if j != jo {
            if j < jo {
                assert(ns[j].0@ != ns[jo].0@);
            } else {
                assert(ns[jo].0@ != ns[j].0@);
            }
        }
        if q != k {
            assert(j != i);
        } else {
            if j != i {
                if j < i {
                    assert(ns[j].0@ != ns[i].0@);
                } else {
                    assert(ns[i].0@ != ns[j].0@);
                }
            }
        }
    }
    assert(entries_map(ns) =~= entries_map(es).insert(k, v));
}

impl View for CsvMapping {
    type V = Map<Seq<char>, CachedCsv>;

    closed spec fn view(&self) -> Map<Seq<char>, CachedCsv> {
        entries_map(self.entries@)
    }
}

impl CsvMapping {
    /// The file at position `i` is the one the map holds under its name.
    proof fn lemma_entry(&self, i: int)
        requires
            self.wf(),
            0 <= i < self.entries@.len(),
        ensures
            self@.contains_key(self.entries@[i].0@),
            self@[self.entries@[i].0@] == self.entries@[i].1,
    {
        let k = self.entries@[i].0@;
        let c = choose|j: int| 0 <= j < self.entries@.len() && self.entries@[j].0@ == k;
        if c != i {
            if c < i {
                assert(self.entries@[c].0@ != self.entries@[i].0@);
            } else {
                assert(self.entries@[i].0@ != self.entries@[c].0@);
            }
        }
    }

    /// The position of the file named `name`, if there is one.
    fn position(&self, name: &str) -> (r: Option<usize>)
        requires
            self.wf(),
        ensures
            match r {
                Some(i) => i < self.entries@.len() && self.entries@[i as int].0@ == name@
                    && self@.contains_key(name@) && self@[name@] == self.entries@[i as int].1,
                None => !self@.contains_key(name@),
            },
    {
        let mut i: usize = 0;
        while i < self.entries.len()
            invariant
                self.wf(),
                i <= self.entries@.len(),
                forall|j: int| 0 <= j < i ==> self.entries@[j].0@ != name@,
            decreases self.entries@.len() - i,
        {
            if str_eq(self.entries[i].0.as_str(), name) {
                proof {
                    self.lemma_entry(i as int);
                }
                return Some(i);
            }
            i = i + 1;
        }
        None
    }

    /// An empty mapping.
    pub fn new() -> (m: CsvMapping)
        ensures
            m.wf(),
            m@ == Map::<Seq<char>, CachedCsv>::empty(),
    {
        let m = CsvMapping { entries: Vec::new() };
        assert(m@ =~= Map::<Seq<char>, CachedCsv>::empty());
        m
    }

    /// Whether a file is held under `name`.
    pub fn contains_key(&self, name: &str) -> (b: bool)
        requires
            self.wf(),
        ensures
            b == self@.contains_key(name@),
    {
        self.position(name).is_some()
    }

    /// The file held under `name`.
    pub fn get(&self, name: &str) -> (r: Option<&CachedCsv>)
        requires
            self.wf(),
        ensures
            match r {
                Some(c) => self@.contains_key(name@) && *c == self@[name@],
                None => !self@.contains_key(name@),
            },
    {
        match self.position(name) {
            Some(i) => Some(&self.entries[i].1),
            None => None,
        }
    }

    /// Holds `csv` under `name`, in place of a file held under it before.
    pub fn insert(&mut self, name: String, csv: CachedCsv)
        requires
            old(self).wf(),
        ensures
            final(self).wf(),
            final(self)@ == old(self)@.insert(name@, csv),
    {
        let ghost k = name@;
        let ghost c = csv;
        match self.position(name.as_str()) {
            Some(i) => {
                self.entries.set(i, (name, csv));
                proof {
                    assert forall|a: int, b: int| 0 <= a < b < self.entries@.len() implies self.entries@[a].0@
                        != self.entries@[b].0@ by {
                        assert(old(self).entries@[a].0@ != old(self).entries@[b].0@);
                    }
                    assert forall|q: Seq<char>| #![auto] self@.contains_key(q) <==> old(self)@.insert(k, c).contains_key(q) by {
                        if q == k {
                            assert(self.entries@[i as int].0@ == q);
                        }
                        if old(self)@.contains_key(q) {
                            let j = choose|j: int| 0 <= j < old(self).entries@.len() && old(self).entries@[j].0@ == q;
                            if j != i {
                                assert(self.entries@[j].0@ == q);
                            } else {
                                assert(self.entries@[i as int].0@ == q);
                            }
                        }
                        if self@.contains_key(q) {
                            let j = choose|j: int| 0 <= j < self.entries@.len() && self.entries@[j].0@ == q;
                            if j != i {
                                assert(old(self).entries@[j].0@ == q);
                            }
                        }
                    }
                    assert forall|q: Seq<char>| #[trigger] self@.contains_key(q) implies self@[q] == old(self)@.insert(k, c)[q] by {
                        let j = choose|j: int| 0 <= j < self.entries@.len() && self.entries@[j].0@ == q;
                        self.lemma_entry(j);
                        if j != i {
                            old(self).lemma_entry(j);
                        }
                    }
                    assert(self@ =~= old(self)@.insert(k, c));
                }
            },
            None => {
                self.entries.push((name, csv));
                proof {
                    let n = old(self).entries@.len() as int;
                    assert forall|a: int, b: int| 0 <= a < b < self.entries@.len() implies self.entries@[a].0@
                        != self.entries@[b].0@ by {
                        if b < n {
                            assert(old(self).entries@[a].0@ != old(self).entries@[b].0@);
                        } else {
                            assert(old(self)@.contains_key(self.entries@[a].0@)) by {
                                assert(old(self).entries@[a] == self.entries@[a]);
                            }
                        }
                    }
                    assert forall|q: Seq<char>| #![auto] self@.contains_key(q) <==> old(self)@.insert(k, c).contains_key(q) by {
                        if old(self)@.contains_key(q) {
                            let j = choose|j: int| 0 <= j < old(self).entries@.len() && old(self).entries@[j].0@ == q;
                            assert(self.entries@[j].0@ == q);
                        }
                        if q == k {
                            assert(self.entries@[n].0@ == q);
                        }
                        if self@.contains_key(q) {
                            let j = choose|j: int| 0 <= j < self.entries@.len() && self.entries@[j].0@ == q;
                            if j < n {
                                assert(old(self).entries@[j].0@ == q);
                            }
                        }
                    }
                    assert forall|q: Seq<char>| #[trigger] self@.contains_key(q) implies self@[q] == old(self)@.insert(k, c)[q] by {
                        let j = choose|j: int| 0 <= j < self.entries@.len() && self.entries@[j].0@ == q;
                        self.lemma_entry(j);
                        if j < n {
                            old(self).lemma_entry(j);
                        }
                    }
                    assert(self@ =~= old(self)@.insert(k, c));
                }
            },
        }
    }

    /// Takes out the file held under `name`.
    pub fn remove(&mut self, name: &str) -> (r: Option<CachedCsv>)
        requires
            old(self).wf(),
        ensures
            final(self).wf(),
            final(self)@ == old(self)@.remove(name@),
            match r {
                Some(c) => old(self)@.contains_key(name@) && c == old(self)@[name@],
                None => !old(self)@.contains_key(name@),
            },
    {
        match self.position(name) {
            Some(i) => {
                let (_, csv) = self.entries.remove(i);
                proof {
                    let k = name@;
                    assert forall|a: int, b: int| 0 <= a < b < self.entries@.len() implies self.entries@[a].0@
                        != self.entries@[b].0@ by {
                        let oa = if a < i { a } else { a + 1 };
                        let ob = if b < i { b } else { b + 1 };
                        assert(self.entries@[a] == old(self).entries@[oa]);
                        assert(self.entries@[b] == old(self).entries@[ob]);
                        assert(old(self).entries@[oa].0@ != old(self).entries@[ob].0@);
                    }
                    assert forall|q: Seq<char>| #![auto] self@.contains_key(q) <==> old(self)@.remove(k).contains_key(q) by {
                        if old(self)@.contains_key(q) && q != k {
                            let j = choose|j: int| 0 <= j < old(self).entries@.len() && old(self).entries@[j].0@ == q;
                            if j < i {
                                assert(self.entries@[j].0@ == q);
                            } else {
                                assert(j != i);
                                assert(self.entries@[j - 1].0@ == q);
                            }
                        }
                        if self@.contains_key(q) {
                            let j = choose|j: int| 0 <= j < self.entries@.len() && self.entries@[j].0@ == q;
                            let oj = if j < i { j } else { j + 1 };
                            assert(self.entries@[j] == old(self).entries@[oj]);
                            assert(old(self).entries@[oj].0@ != old(self).entries@[i as int].0@) by {
                                if oj < i {
                                } else {
                                }
                            }
                        }
                    }
                    assert forall|q: Seq<char>| #[trigger] self@.contains_key(q) implies self@[q] == old(self)@.remove(k)[q] by {
                        let j = choose|j: int| 0 <= j < self.entries@.len() && self.entries@[j].0@ == q;
                        self.lemma_entry(j);
                        let oj = if j < i { j } else { j + 1 };
                        assert(self.entries@[j] == old(self).entries@[oj]);
                        old(self).lemma_entry(oj);
                    }
                    assert(self@ =~= old(self)@.remove(k));
                }
                Some(csv)
            },
            None => {
                assert(self@ =~= old(self)@.remove(name@));
                None
            },
        }
    }

    /// Drops every file.
    pub fn clear(&mut self)
        ensures
            final(self).wf(),
            final(self)@ == Map::<Seq<char>, CachedCsv>::empty(),
    {
        self.entries.clear();
        assert(self@ =~= Map::<Seq<char>, CachedCsv>::empty());
    }

    /// The names of the files, each once.
    pub fn keys(&self) -> (r: Vec<&str>)
        requires
            self.wf(),
        ensures
            r@.len() == self@.dom().len(),
            forall|i: int| 0 <= i < r@.len() ==> self@.contains_key(#[trigger] r@[i]@),
            forall|k: Seq<char>| #[trigger] self@.contains_key(k) ==> exists|i: int| 0 <= i < r@.len() && r@[i]@ == k,
            forall|i: int, j: int| 0 <= i < j < r@.len() ==> r@[i]@ != r@[j]@,
    {
        let mut r: Vec<&str> = Vec::new();
        let mut i: usize = 0;
        while i < self.entries.len()
            invariant
                self.wf(),
                i <= self.entries@.len(),
                r@.len() == i,
                forall|j: int| 0 <= j < i ==> (#[trigger] r@[j])@ == self.entries@[j].0@,
            decreases self.entries@.len() - i,
        {
            r.push(self.entries[i].0.as_str());
            i = i + 1;
        }
        proof {
            assert forall|j: int| 0 <= j < r@.len() implies self@.contains_key(#[trigger] r@[j]@) by {
                self.lemma_entry(j);
            }
            assert forall|k: Seq<char>| #[trigger] self@.contains_key(k) implies exists|j: int| 0 <= j < r@.len() && r@[j]@ == k by {
                let j = choose|j: int| 0 <= j < self.entries@.len() && self.entries@[j].0@ == k;
                assert(r@[j]@ == k);
            }
            assert forall|a: int, b: int| 0 <= a < b < r@.len() implies r@[a]@ != r@[b]@ by {
                assert(self.entries@[a].0@ != self.entries@[b].0@);
            }
            let names = r@.map_values(|s: &str| s@);
            assert(names.no_duplicates()) by {
                assert forall|a: int, b: int| 0 <= a < names.len() && 0 <= b < names.len() && a != b implies names[a] != names[b] by {
                    if a < b {
                        assert(r@[a]@ != r@[b]@);
                    } else {
                        assert(r@[b]@ != r@[a]@);
                    }
                }
            }
            assert(names.to_set() =~= self@.dom()) by {
                assert forall|k: Seq<char>| names.to_set().contains(k) <==> self@.dom().contains(k) by {
                    if self@.dom().contains(k) {
                        let j = choose|j: int| 0 <= j < r@.len() && r@[j]@ == k;
                        assert(names[j] == k);
                    }
                    if names.to_set().contains(k) {
                        let j = choose|j: int| 0 <= j < names.len() && names[j] == k;
                        assert(r@[j]@ == k);
                    }
                }
            }
            names.unique_seq_to_set();
        }
        r
    }

    /// The file held under `name`, to be changed in place.
    pub fn get_mut(&mut self, name: &str) -> (r: &mut CachedCsv)
        requires
            old(self).wf(),
            old(self)@.contains_key(name@),
        ensures
            *r == old(self)@[name@],
            final(self).wf(),
            final(self)@ == old(self)@.insert(name@, *final(r)),
    {
        let i = match self.position(name) {
            Some(i) => i,
            None => 0,
        };
        let ghost es = self.entries@;
        let r = &mut self.entries[i].1;
        proof {
            lemma_replace_entry(es, i as int, *final(r));
        }
        r
    }
}


/// The file and the column positions each foreign key of `schema` indexes
/// when its references are prepared; the positions are those of the
/// referenced column names in `schema` itself.
pub open spec fn fk_refs(schema: CsvSchema) -> Seq<(Seq<char>, Seq<usize>)> {
    schema.foreign_keys@.map_values(
        |fk: crate::csv_schema::ForeignKey|
            (fk.references.file@, spec_selection(schema.names(), fk.references.columns.deep_view())),
    )
}

/// The indexes of a file after indexing its rows over `sel` (an empty file
/// only gets an index for `sel` if it had none).
pub open spec fn index_step(s: Seq<SliceView>, rows: Seq<OkRow>, sel: Seq<usize>) -> Seq<SliceView> {
    set_slice(
        s,
        sel,
        if rows.len() == 0 {
            slice_or_empty(s, sel)
        } else {
            index_state(slice_or_empty(s, sel), row_hashes(rows, sel))
        },
    )
}

/// The indexes of every file after indexing the references `refs` in order.
pub open spec fn fk_slices(
    slices: Map<Seq<char>, Seq<SliceView>>,
    rows: Map<Seq<char>, Seq<OkRow>>,
    refs: Seq<(Seq<char>, Seq<usize>)>,
) -> Map<Seq<char>, Seq<SliceView>>
    decreases refs.len(),
{
    if refs.len() == 0 {
        slices
    } else {
        let prev = fk_slices(slices, rows, refs.drop_last());
        let f = refs.last().0;
        prev.insert(f, index_step(prev[f], rows[f], refs.last().1))
    }
}

/// The indexes of each file of a map.
pub open spec fn slices_map(m: Map<Seq<char>, CachedCsv>) -> Map<Seq<char>, Seq<SliceView>> {
    m.map_values(|c: CachedCsv| c.slices())
}

/// The rows of each file of a map.
pub open spec fn rows_map(m: Map<Seq<char>, CachedCsv>) -> Map<Seq<char>, Seq<OkRow>> {
    m.map_values(|c: CachedCsv| c.rows())
}

/// A referenced file that is not loaded, or has no rows, stops the
/// preparation.
pub open spec fn ref_blocks(m: Map<Seq<char>, CachedCsv>, f: Seq<char>) -> bool {
    !m[f].loaded() || m[f].rows().len() == 0
}

/// The position of the first reference whose file stops the preparation.
pub open spec fn first_blocking(m: Map<Seq<char>, CachedCsv>, refs: Seq<(Seq<char>, Seq<usize>)>) -> Option<int>
    decreases refs.len(),
{
    if refs.len() == 0 {
        None
    } else {
        match first_blocking(m, refs.drop_last()) {
            Some(k) => Some(k),
            None => if ref_blocks(m, refs.last().0) {
                Some(refs.len() - 1)
            } else {
                None
            },
        }
    }
}

/// `after` is `before` with only its indexes changed.
pub open spec fn same_but_slices(before: CachedCsv, after: CachedCsv) -> bool {
    &&& after.loaded() == before.loaded()
    &&& after.rows() == before.rows()
    &&& after.read_result() == before.read_result()
    &&& after.validated() == before.validated()
    &&& after.uniques() == before.uniques()
    &&& after.fk_results() == before.fk_results()
    &&& after.spec_filename() == before.spec_filename()
    &&& after.spec_schema() == before.spec_schema()
}

/// The foreign keys of `schema` can be prepared in `m`: their referenced
/// names are columns of `schema`, their files are in `m`, and the positions
/// fit the referenced file's rows when it has rows.
pub open spec fn fk_refs_ready(m: Map<Seq<char>, CachedCsv>, schema: CsvSchema) -> bool {
    &&& forall|k: int|
        0 <= k < schema.foreign_keys@.len() ==> all_names_known(
            schema.names(),
            (#[trigger] schema.foreign_keys@[k]).references.columns.deep_view(),
        )
    &&& forall|k: int|
        0 <= k < fk_refs(schema).len() ==> m.contains_key((#[trigger] fk_refs(schema)[k]).0) && (
        m[fk_refs(schema)[k].0].rows().len() > 0 ==> columns_below(
            fk_refs(schema)[k].1,
            m[fk_refs(schema)[k].0].spec_schema().columns@.len(),
        ))
}

/// The cached files of a workspace, by file name.
pub struct CachedCsvWorkspace {
    mapping: CsvMapping,
}

impl View for CachedCsvWorkspace {
    type V = Map<Seq<char>, CachedCsv>;

    closed spec fn view(&self) -> Map<Seq<char>, CachedCsv> {
        self.mapping@
    }
}

/// Every file of a map is well formed.
pub open spec fn all_wf(m: Map<Seq<char>, CachedCsv>) -> bool {
    forall|k: Seq<char>| #[trigger] m.contains_key(k) ==> m[k].wf()
}

impl CachedCsvWorkspace {
    /// Names are unique and every file is well formed.
    pub closed spec fn wf(&self) -> bool {
        self.mapping.wf() && all_wf(self.mapping@)
    }

    /// An empty workspace.
    pub fn new() -> (w: CachedCsvWorkspace)
        ensures
            w.wf(),
            w@ == Map::<Seq<char>, CachedCsv>::empty(),
    {
        CachedCsvWorkspace { mapping: CsvMapping::new() }
    }

    /// Drops every file.
    pub fn clear(&mut self)
        ensures
            final(self).wf(),
            final(self)@ == Map::<Seq<char>, CachedCsv>::empty(),
    {
        self.mapping.clear();
    }

    /// Drops the file `filename`, if it is there.
    pub fn remove(&mut self, filename: &str)
        requires
            old(self).wf(),
        ensures
            final(self).wf(),
            final(self)@ == old(self)@.remove(filename@),
    {
        let _ = self.mapping.remove(filename);
    }

    /// The names of the files, each once.
    pub fn files(&self) -> (r: Vec<&str>)
        requires
            self.wf(),
        ensures
            r@.len() == self@.dom().len(),
            forall|i: int| 0 <= i < r@.len() ==> self@.contains_key(#[trigger] r@[i]@),
            forall|k: Seq<char>| #[trigger] self@.contains_key(k) ==> exists|i: int| 0 <= i < r@.len() && r@[i]@ == k,
            forall|i: int, j: int| 0 <= i < j < r@.len() ==> r@[i]@ != r@[j]@,
    {
        self.mapping.keys()
    }

    /// Whether the workspace holds `filename`.
    pub fn has_file(&self, filename: &str) -> (b: bool)
        requires
            self.wf(),
        ensures
            b == self@.contains_key(filename@),
    {
        self.mapping.contains_key(filename)
    }

    /// The file `filename`, to be changed in place. The workspace stays well
    /// formed when the file does.
    pub fn csv(&mut self, filename: &str) -> (r: &mut CachedCsv)
        requires
            old(self).wf(),
            old(self)@.contains_key(filename@),
        ensures
            *r == old(self)@[filename@],
            r.wf(),
            final(self)@ == old(self)@.insert(filename@, *final(r)),
            final(r).wf() ==> final(self).wf(),
    {
        self.mapping.get_mut(filename)
    }

    /// The file `filename`, to be read.
    pub fn csv_ref(&self, filename: &str) -> (r: &CachedCsv)
        requires
            self.wf(),
            self@.contains_key(filename@),
        ensures
            *r == self@[filename@],
            r.wf(),
    {
        match self.mapping.get(filename) {
            Some(c) => c,
            None => {
                assert(false);
                self.mapping.get(filename).unwrap()
            },
        }
    }

    /// Adds the file `csv` with its schema, nothing loaded yet.
    pub fn add_csv_file(&mut self, csv: &str, schema: CsvSchema)
        requires
            old(self).wf(),
            !old(self)@.contains_key(csv@),
        ensures
            final(self).wf(),
            final(self)@.dom() == old(self)@.dom().insert(csv@),
            forall|k: Seq<char>| #[trigger] old(self)@.contains_key(k) ==> final(self)@[k] == old(self)@[k],
            final(self)@[csv@].spec_filename()@ == csv@,
            final(self)@[csv@].spec_schema() == schema,
            !final(self)@[csv@].loaded(),
            final(self)@[csv@].slices() == Seq::<crate::csv_cached::SliceView>::empty(),
            final(self)@[csv@].validated().dom().is_empty(),
            final(self)@[csv@].uniques().dom().is_empty(),
    {
        let cached = CachedCsv::new(csv.to_string(), schema);
        self.mapping.insert(csv.to_string(), cached);
    }

    /// Validates the rows of `filename` with the other files of the workspace
    /// as the targets of its foreign keys.
    pub fn validate_csv<F: Fn(&str, &Option<String>, &Option<String>) -> FloatVerdict>(
        &mut self,
        filename: &str,
        rules: &F,
    )
        requires
            old(self).wf(),
            old(self)@.contains_key(filename@),
            validation_ready(old(self)@[filename@], old(self)@.remove(filename@)),
            rules_total(*rules),
        ensures
            final(self).wf(),
            final(self)@.dom() == old(self)@.dom(),
            forall|k: Seq<char>| #[trigger] old(self)@.contains_key(k) && k != filename@ ==> final(self)@[k] == old(self)@[k],
            rows_validated(old(self)@[filename@], final(self)@[filename@], old(self)@.remove(filename@), *rules),
    {
        let mut csv = match self.mapping.remove(filename) {
            Some(c) => c,
            None => {
                assert(false);
                return;
            },
        };
        csv.validate_rows(&self.mapping, rules);
        self.mapping.insert(filename.to_string(), csv);
        assert(self@.dom() =~= old(self)@.dom());
    }

    /// Indexes, for foreign key `k` of `filename`, the referenced file over
    /// the referenced columns (their positions taken from the schema of
    /// `filename`): the one step of `prepare_fk_validation_for` for that key.
    /// Fails with `NoCsvLoaded` (nothing changed) when the referenced file has
    /// nothing loaded, and with `CsvEmpty` (after giving it an index for the
    /// columns) when it has no rows.
    pub fn prepare_fk_key(&mut self, filename: &str, k: usize) -> (r: Result<(), CsvCachingError>)
        requires
            old(self).wf(),
            old(self)@.contains_key(filename@),
            k < old(self)@[filename@].spec_schema().foreign_keys@.len(),
            all_names_known(
                old(self)@[filename@].spec_schema().names(),
                old(self)@[filename@].spec_schema().foreign_keys@[k as int].references.columns.deep_view(),
            ),
            old(self)@.contains_key(fk_refs(old(self)@[filename@].spec_schema())[k as int].0),
            ({
                let (f, sel) = fk_refs(old(self)@[filename@].spec_schema())[k as int];
                old(self)@[f].rows().len() > 0 ==> columns_below(sel, old(self)@[f].spec_schema().columns@.len())
            }),
        ensures
            final(self).wf(),
            final(self)@.dom() == old(self)@.dom(),
            forall|q: Seq<char>|
                #[trigger] old(self)@.contains_key(q) ==> same_but_slices(old(self)@[q], final(self)@[q]),
            ({
                let (f, sel) = fk_refs(old(self)@[filename@].spec_schema())[k as int];
                &&& (r is Ok <==> !ref_blocks(old(self)@, f))
                &&& !old(self)@[f].loaded() ==> {
                    &&& r matches Err(CsvCachingError::NoCsvLoaded)
                    &&& slices_map(final(self)@) == slices_map(old(self)@)
                }
                &&& old(self)@[f].loaded() ==> slices_map(final(self)@) == slices_map(old(self)@).insert(
                    f,
                    index_step(old(self)@[f].slices(), old(self)@[f].rows(), sel),
                )
                &&& old(self)@[f].loaded() && old(self)@[f].rows().len() == 0 ==> r matches Err(
                    CsvCachingError::CsvEmpty,
                )
            }),
    {
        let ghost m0 = self@;
        let ghost refs = fk_refs(m0[filename@].spec_schema());
        let columns = {
            let schema = self.csv_ref(filename).schema();
            schema.named_col2col_selection(&schema.foreign_keys[k].references.columns)
        };
        let target = self.csv_ref(filename).schema().foreign_keys[k].references.file.clone();
        assert(target@ == refs[k as int].0);
        assert(columns@ == refs[k as int].1);
        let ghost f = target@;
        let result = self.csv(target.as_str()).index_columns(&columns);
        proof {
            assert forall|q: Seq<char>| #[trigger] m0.contains_key(q) implies same_but_slices(m0[q], self@[q]) by {
                if q != f {
                    assert(self@[q] == m0[q]);
                }
            }
            assert(slices_map(self@) =~= slices_map(m0).insert(f, self@[f].slices()));
            if !m0[f].loaded() {
                assert(slices_map(self@) =~= slices_map(m0));
            }
        }
        match result {
            Ok(_) => Ok(()),
            Err(e) => Err(e),
        }
    }

    /// Indexes, for each foreign key of `filename` in order, the referenced
    /// file over the referenced columns (their positions taken from the
    /// schema of `filename`). Stops at the first referenced file with nothing
    /// loaded (`NoCsvLoaded`) or no rows (`CsvEmpty`, after giving it an index
    /// for the columns). Every referenced file must be in the workspace.
    pub fn prepare_fk_validation_for(&mut self, filename: &str) -> (r: Result<(), CsvCachingError>)
        requires
            old(self).wf(),
            old(self)@.contains_key(filename@),
            fk_refs_ready(old(self)@, old(self)@[filename@].spec_schema()),
        ensures
            final(self).wf(),
            final(self)@.dom() == old(self)@.dom(),
            forall|k: Seq<char>|
                #[trigger] old(self)@.contains_key(k) ==> same_but_slices(old(self)@[k], final(self)@[k]),
            ({
                let refs = fk_refs(old(self)@[filename@].spec_schema());
                match first_blocking(old(self)@, refs) {
                    None => r is Ok && slices_map(final(self)@) == fk_slices(
                        slices_map(old(self)@),
                        rows_map(old(self)@),
                        refs,
                    ),
                    Some(k) => if !old(self)@[refs[k].0].loaded() {
                        r matches Err(CsvCachingError::NoCsvLoaded) && slices_map(final(self)@)
                            == fk_slices(slices_map(old(self)@), rows_map(old(self)@), refs.take(k))
                    } else {
                        r matches Err(CsvCachingError::CsvEmpty) && slices_map(final(self)@)
                            == fk_slices(slices_map(old(self)@), rows_map(old(self)@), refs.take(k + 1))
                    },
                }
            }),
    {
        let ghost m0 = self@;
        let ghost refs = fk_refs(m0[filename@].spec_schema());
        let n = self.csv_ref(filename).schema().foreign_keys.len();
        let mut k: usize = 0;
        while k < n
            invariant
                k <= n,
                n == refs.len(),
                refs == fk_refs(m0[filename@].spec_schema()),
                m0 == old(self)@,
                self.wf(),
                self@.dom() == m0.dom(),
                self@.contains_key(filename@),
                self@[filename@].spec_schema() == m0[filename@].spec_schema(),
                fk_refs_ready(m0, m0[filename@].spec_schema()),
                forall|q: Seq<char>| #[trigger] m0.contains_key(q) ==> same_but_slices(m0[q], self@[q]),
                first_blocking(m0, refs.take(k as int)) is None,
                slices_map(self@) == fk_slices(slices_map(m0), rows_map(m0), refs.take(k as int)),
            decreases n - k,
        {
            let ghost before = self@;
            assert(refs.take(k + 1).drop_last() == refs.take(k as int));
            let columns = {
                let schema = self.csv_ref(filename).schema();
                assert(schema.foreign_keys@[k as int].references.columns.deep_view() == schema.foreign_keys@[k as int].references.columns.deep_view());
                schema.named_col2col_selection(&schema.foreign_keys[k].references.columns)
            };
            let target = self.csv_ref(filename).schema().foreign_keys[k].references.file.clone();
            assert(target@ == refs[k as int].0);
            assert(columns@ == refs[k as int].1);
            let ghost f = target@;
            let result = self.csv(target.as_str()).index_columns(&columns);
            proof {
                assert(same_but_slices(m0[f], self@[f]));
                assert forall|q: Seq<char>| #[trigger] m0.contains_key(q) implies same_but_slices(m0[q], self@[q]) by {
                    if q != f {
                        assert(self@[q] == before[q]);
                    }
                }
                assert(slices_map(self@) =~= slices_map(before).insert(f, self@[f].slices()));
            }
            match result {
                Ok(_) => {},
                Err(e) => {
                    proof {
                        assert(refs.take(k + 1).last() == refs[k as int]);
                        assert(ref_blocks(m0, f));
                        assert(first_blocking(m0, refs.take(k + 1)) == Some(k as int));
                        lemma_first_blocking_prefix(m0, refs, k as int + 1);
                    }
                    return Err(e);
                },
            }
            k = k + 1;
        }
        assert(refs.take(n as int) == refs);
        Ok(())
    }
}


/// The first blocking reference of a prefix is the first of the whole list.
pub proof fn lemma_first_blocking_prefix(
    m: Map<Seq<char>, CachedCsv>,
    refs: Seq<(Seq<char>, Seq<usize>)>,
    n: int,
)
    requires
        0 <= n <= refs.len(),
        first_blocking(m, refs.take(n)) is Some,
    ensures
        first_blocking(m, refs) == first_blocking(m, refs.take(n)),
    decreases refs.len() - n,
{
    if n < refs.len() {
        assert(refs.take(n + 1).drop_last() == refs.take(n));
        lemma_first_blocking_prefix(m, refs, n + 1);
    } else {
        assert(refs.take(n) == refs);
    }
}


// ---------------------------------------------------------------- file names

/// `s` without every trailing occurrence of `pat`, as `str::trim_end_matches`
/// (std) removes them.
pub open spec fn trim_end_all(s: Seq<char>, pat: Seq<char>) -> Seq<char>
    decreases s.len(),
{
    if pat.len() > 0 && s.len() >= pat.len() && s.subrange(s.len() - pat.len(), s.len() as int) == pat {
        trim_end_all(s.subrange(0, s.len() - pat.len()), pat)
    } else {
        s
    }
}

/// `s` with each occurrence of `from`, found from the left without overlap,
/// replaced by `to`, as `str::replace` (std) does it.
pub open spec fn replace_all(s: Seq<char>, from: Seq<char>, to: Seq<char>) -> Seq<char>
    decreases s.len(),
{
    if from.len() == 0 || s.len() < from.len() {
        s
    } else if s.subrange(0, from.len() as int) == from {
        to + replace_all(s.subrange(from.len() as int, s.len() as int), from, to)
    } else {
        seq![s[0]] + replace_all(s.subrange(1, s.len() as int), from, to)
    }
}

/// `str::trim_end_matches` (std) with a non-empty text pattern. Trusted: the
/// result is `s` without all trailing copies of `pat`.
#[verifier::external_body]
fn trim_end_matches<'a>(s: &'a str, pat: &str) -> (r: &'a str)
    requires
        pat@.len() > 0,
    ensures
        r@ == trim_end_all(s@, pat@),
{
    s.trim_end_matches(pat)
}

/// `str::replace` (std) with a non-empty text pattern. Trusted: every
/// occurrence of `from`, found from the left without overlap, is replaced by
/// `to`.
#[verifier::external_body]
fn replace(s: &str, from: &str, to: &str) -> (r: String)
    requires
        from@.len() > 0,
    ensures
        r@ == replace_all(s@, from@, to@),
{
    s.replace(from, to)
}

/// The schema file of a CSV file: `schema.` and the file name without its
/// trailing `.csv` extensions, then `.toml`.
pub fn schema_filename_for(csv_filename: &str) -> (r: String)
    ensures
        r@ == "schema."@ + trim_end_all(csv_filename@, ".csv"@) + ".toml"@,
{
    proof {
        reveal_strlit(".csv");
    }
    let stem = trim_end_matches(csv_filename, ".csv");
    let mut r = "schema.".to_string();
    r.append(stem);
    r.append(".toml");
    r
}

/// The schema file loaded for a file that a foreign key references:
/// `schema.` and the file name, with every `.csv` in it replaced by `.toml`.
pub fn fk_schema_filename(referenced_file: &str) -> (r: String)
    ensures
        r@ == replace_all("schema."@ + referenced_file@, ".csv"@, ".toml"@),
{
    proof {
        reveal_strlit(".csv");
    }
    let mut name = "schema.".to_string();
    name.append(referenced_file);
    replace(name.as_str(), ".csv", ".toml")
}

} // verus!
