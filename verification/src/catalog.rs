//! The catalog: the registry mapping table names and table ids to heap
//! files, and exposing each table's tuple descriptor. Names are
//! case-sensitive and unique; adding a table under an existing name replaces
//! that table silently.

use vstd::prelude::*;

verus! {

use crate::codec::str_eq;
use crate::heap_file::HeapFile;
use crate::tuple::TupleDesc;

/// The index of the first name equal to `name`, or the length when none is.
pub open spec fn spec_name_index_from(names: Seq<Seq<char>>, name: Seq<char>, i: int) -> int
    decreases names.len() - i,
{
    if i < 0 || i >= names.len() {
        names.len() as int
    } else if names[i] == name {
        i
    } else {
        spec_name_index_from(names, name, i + 1)
    }
}

/// The index of the first table with the given name, or the table count.
pub open spec fn spec_name_index(names: Seq<Seq<char>>, name: Seq<char>) -> int {
    spec_name_index_from(names, name, 0)
}

/// The index of the first file with the given id, or the file count.
pub open spec fn spec_id_index_from(files: Seq<HeapFile>, id: usize, i: int) -> int
    decreases files.len() - i,
{
    if i < 0 || i >= files.len() {
        files.len() as int
    } else if files[i].id == id {
        i
    } else {
        spec_id_index_from(files, id, i + 1)
    }
}

/// The index of the first table with the given id, or the table count.
pub open spec fn spec_id_index(files: Seq<HeapFile>, id: usize) -> int {
    spec_id_index_from(files, id, 0)
}

pub proof fn lemma_name_index_props(names: Seq<Seq<char>>, name: Seq<char>, i: int)
    requires
        0 <= i <= names.len(),
    ensures
        i <= spec_name_index_from(names, name, i) <= names.len(),
        spec_name_index_from(names, name, i) < names.len() ==> names[spec_name_index_from(
            names,
            name,
            i,
        )] == name,
        forall|j: int| i <= j < spec_name_index_from(names, name, i) ==> names[j] != name,
        spec_name_index_from(names, name, i) == names.len() ==> forall|j: int|
            i <= j < names.len() ==> names[j] != name,
    decreases names.len() - i,
{
    if i < names.len() && names[i] != name {
        lemma_name_index_props(names, name, i + 1);
    }
}

pub proof fn lemma_id_index_props(files: Seq<HeapFile>, id: usize, i: int)
    requires
        0 <= i <= files.len(),
    ensures
        i <= spec_id_index_from(files, id, i) <= files.len(),
        spec_id_index_from(files, id, i) < files.len() ==> files[spec_id_index_from(
            files,
            id,
            i,
        )].id == id,
        forall|j: int| i <= j < spec_id_index_from(files, id, i) ==> files[j].id != id,
        spec_id_index_from(files, id, i) == files.len() ==> forall|j: int|
            i <= j < files.len() ==> files[j].id != id,
    decreases files.len() - i,
{
    if i < files.len() && files[i].id != id {
        lemma_id_index_props(files, id, i + 1);
    }
}

/// Lookup by id is unchanged when every file keeps its id.
pub proof fn lemma_id_index_same(files0: Seq<HeapFile>, files1: Seq<HeapFile>, id: usize, i: int)
    requires
        0 <= i <= files0.len(),
        files1.len() == files0.len(),
        forall|j: int| 0 <= j < files0.len() ==> files1[j].id == files0[j].id,
    ensures
        spec_id_index_from(files1, id, i) == spec_id_index_from(files0, id, i),
    decreases files0.len() - i,
{
    if i < files0.len() && files0[i].id != id {
        lemma_id_index_same(files0, files1, id, i + 1);
    }
}

/// Registry of tables: parallel name and file columns; entry `i` of `names`
/// names the table stored in entry `i` of `files`.
pub struct Catalog {
    pub names: Vec<String>,
    pub files: Vec<HeapFile>,
}

impl Catalog {
    /// The names of the registered tables.
    pub open spec fn spec_names(self) -> Seq<Seq<char>> {
        Seq::new(self.names@.len(), |i: int| self.names@[i]@)
    }

    /// Both columns line up, every file is well formed, and names are
    /// unique.
    pub open spec fn wf(self) -> bool {
        &&& self.names@.len() == self.files@.len()
        &&& forall|i: int| 0 <= i < self.files@.len() ==> (#[trigger] self.files@[i]).wf()
        &&& forall|a: int, b: int|
            0 <= a < b < self.names@.len() ==> self.spec_names()[a] != self.spec_names()[b]
    }

    /// An empty registry.
    pub fn new() -> (c: Self)
        ensures
            c.wf(),
            c.names@.len() == 0,
            c.files@.len() == 0,
    {
        Catalog { names: Vec::new(), files: Vec::new() }
    }

    /// Registers a table under a name. A table already registered under the
    /// same name is replaced silently; otherwise the table is appended.
    pub fn add_table(&mut self, file: HeapFile, name: String)
        requires
            old(self).wf(),
            file.wf(),
        ensures
            final(self).wf(),
            ({
                let idx = spec_name_index(old(self).spec_names(), name@);
                if idx < old(self).names@.len() {
                    &&& final(self).names@ == old(self).names@
                    &&& final(self).files@ == old(self).files@.update(idx, file)
                } else {
                    &&& final(self).names@ == old(self).names@.push(name)
                    &&& final(self).files@ == old(self).files@.push(file)
                }
            }),
    {
        let ghost names0 = self.spec_names();
        let n = self.names.len();
        let mut i: usize = 0;
        while i < n
            invariant
                i <= n,
                n == self.names@.len(),
                self.names@ == old(self).names@,
                self.files@ == old(self).files@,
                old(self).wf(),
                file.wf(),
                names0 == self.spec_names(),
                spec_name_index_from(names0, name@, 0) == spec_name_index_from(
                    names0,
                    name@,
                    i as int,
                ),
            decreases n - i,
        {
            if str_eq(self.names[i].as_str(), name.as_str()) {
                self.files.set(i, file);
                proof {
                    assert(self.spec_names() =~= names0);
                    assert forall|k: int| 0 <= k < self.files@.len() implies (
                    #[trigger] self.files@[k]).wf() by {
                        if k != i as int {
                            assert(self.files@[k] == old(self).files@[k]);
                        }
                    }
                    assert forall|a: int, b: int|
                        0 <= a < b < self.names@.len() implies self.spec_names()[a]
                        != self.spec_names()[b] by {
                        assert(old(self).spec_names()[a] != old(self).spec_names()[b]);
                    }
                }
                return ;
            }
            i = i + 1;
        }
        self.names.push(name);
        self.files.push(file);
        proof {
            lemma_name_index_props(names0, name@, 0);
            let names1 = self.spec_names();
            assert(names1 =~= names0.push(name@));
            assert forall|a: int, b: int| 0 <= a < b < names1.len() implies names1[a]
                != names1[b] by {
                if b < names0.len() {
                } else {
                    assert(names1[b] == name@);
                    assert(names0[a] != name@);
                }
            }
        }
    }

    /// The table registered under the given name, if any.
    pub fn get_table_from_name(&self, name: &str) -> (r: Option<&HeapFile>)
        requires
            self.wf(),
        ensures
            ({
                let idx = spec_name_index(self.spec_names(), name@);
                if idx < self.names@.len() {
                    r matches Some(f) && *f == self.files@[idx]
                } else {
                    r is None
                }
            }),
    {
        let ghost names0 = self.spec_names();
        let n = self.names.len();
        let mut i: usize = 0;
        while i < n
            invariant
                i <= n,
                self.wf(),
                n == self.names@.len(),
                names0 == self.spec_names(),
                spec_name_index_from(names0, name@, 0) == spec_name_index_from(
                    names0,
                    name@,
                    i as int,
                ),
            decreases n - i,
        {
            if str_eq(self.names[i].as_str(), name) {
                return Some(&self.files[i]);
            }
            i = i + 1;
        }
        None
    }

    /// The table registered under the given id, if any (first match wins).
    pub fn get_table_from_id(&self, id: usize) -> (r: Option<&HeapFile>)
        requires
            self.wf(),
        ensures
            ({
                let idx = spec_id_index(self.files@, id);
                if idx < self.files@.len() {
                    r matches Some(f) && *f == self.files@[idx]
                } else {
                    r is None
                }
            }),
    {
        let n = self.files.len();
        let mut i: usize = 0;
        while i < n
            invariant
                i <= n,
                self.wf(),
                n == self.files@.len(),
                spec_id_index_from(self.files@, id, 0) == spec_id_index_from(
                    self.files@,
                    id,
                    i as int,
                ),
            decreases n - i,
        {
            if self.files[i].get_id() == id {
                return Some(&self.files[i]);
            }
            i = i + 1;
        }
        None
    }

    /// The index of the table registered under the given id, if any.
    pub(crate) fn table_index_of(&self, id: usize) -> (r: Option<usize>)
        requires
            self.wf(),
        ensures
            ({
                let idx = spec_id_index(self.files@, id);
                &&& (r is Some <==> idx < self.files@.len())
                &&& (r matches Some(x) ==> x as int == idx)
            }),
    {
        let n = self.files.len();
        let mut i: usize = 0;
        while i < n
            invariant
                i <= n,
                self.wf(),
                n == self.files@.len(),
                spec_id_index_from(self.files@, id, 0) == spec_id_index_from(
                    self.files@,
                    id,
                    i as int,
                ),
            decreases n - i,
        {
            if self.files[i].get_id() == id {
                return Some(i);
            }
            i = i + 1;
        }
        None
    }

    /// A mutable borrow of the file at a known index.
    pub(crate) fn file_at_mut(&mut self, i: usize) -> (f: &mut HeapFile)
        requires
            i < old(self).files@.len(),
        ensures
            *f == old(self).files@[i as int],
            final(self).files@ == old(self).files@.update(i as int, *final(f)),
            final(self).names@ == old(self).names@,
    {
        &mut self.files[i]
    }

    /// The tuple descriptor of the table registered under the given id, if
    /// any.
    pub fn get_tuple_desc(&self, table_id: usize) -> (r: Option<TupleDesc>)
        requires
            self.wf(),
        ensures
            ({
                let idx = spec_id_index(self.files@, table_id);
                if idx < self.files@.len() {
                    r matches Some(td) && td.types@ == self.files@[idx].td.types@ && td.fields@
                        == self.files@[idx].td.fields@
                } else {
                    r is None
                }
            }),
    {
        match self.get_table_from_id(table_id) {
            Some(f) => Some(f.get_tuple_desc().clone()),
            None => None,
        }
    }
}

} // verus!
