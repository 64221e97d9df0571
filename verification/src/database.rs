use vstd::prelude::*;
use crate::config::Config;
use crate::document_key::DocumentKeyAttr;
use crate::index::index_wf;
use crate::index::EntryView;
use crate::index::Index;
use crate::index_map::index_map;
use crate::number::Number;
use crate::ranked_map::RankedMap;
use crate::schema::declares;
use crate::schema::lemma_place_unique;
use crate::schema::place_of;
use crate::schema::Schema;
use crate::schema::SchemaView;
use crate::state::apply_ops;
use crate::state::IndexState;
use crate::state::StateView;
use crate::store::DocumentStore;
use crate::text::same_text;
use crate::types::DocIndex;
use crate::types::DocumentId;
use crate::types::SchemaAttr;
use crate::update::Update;
use crate::update::WriteBatch;

verus! {

/// One index as a query sees it, as plain values: its schema, its settings
/// and what it holds.
pub struct Snapshot {
    pub schema: SchemaView,
    pub config: Config,
    pub state: StateView,
    /// The dictionary of the inverted index, in ascending order of the words.
    pub entries: Seq<EntryView>,
}

impl Snapshot {
    /// What holds of every snapshot.
    pub open spec fn wf(self) -> bool {
        &&& self.schema.wf()
        &&& index_wf(self.entries)
        &&& self.state.index == index_map(self.entries)
    }
}

/// A consistent view of one index: its schema, its settings, its inverted
/// index, its ranked map and the stored values of its documents.
pub struct DatabaseView {
    schema: Schema,
    config: Config,
    state: IndexState,
}

/// Why an operation on the database was refused.
#[derive(Clone, Copy, Debug, PartialEq, Eq, Structural)]
pub enum DatabaseError {
    IndexAlreadyExists,
    UnknownIndex,
}

impl DatabaseView {
    /// The index as plain values.
    pub closed spec fn view(&self) -> Snapshot {
        Snapshot {
            schema: self.schema@,
            config: self.config,
            state: self.state@,
            entries: self.state.entries(),
        }
    }

    /// An index that holds nothing, with settings that set nothing.
    pub fn new(schema: Schema) -> (view: DatabaseView)
        ensures
            view@.schema == schema@,
            view@.config == Config::new_spec(),
            view@.state.index == Map::<Seq<char>, Seq<DocIndex>>::empty(),
            view@.state.ranked == (Map::<(u64, u16), Number>::empty()),
            view@.state.documents == Map::<DocumentKeyAttr, Seq<u8>>::empty(),
    {
        DatabaseView { schema, config: Config::new(), state: IndexState::new() }
    }

    /// The view of an index that holds what is given.
    pub fn from_parts(schema: Schema, config: Config, state: IndexState) -> (view: DatabaseView)
        ensures
            view@.schema == schema@,
            view@.config == config,
            view@.state == state@,
            view@.entries == state.entries(),
    {
        DatabaseView { schema, config, state }
    }

    /// The schema of the index.
    pub fn schema(&self) -> (schema: &Schema)
        ensures
            schema@ == self@.schema,
            self@.wf(),
    {
        let n = self.schema.len();
        let index = self.state.index();
        let m = index.len();
        &self.schema
    }

    /// The settings of the index.
    pub fn config(&self) -> (config: &Config)
        ensures
            *config == self@.config,
    {
        &self.config
    }

    /// The inverted index.
    pub fn index(&self) -> (index: &Index)
        ensures
            index@ == self@.entries,
    {
        self.state.index()
    }

    /// The ranked map.
    pub fn ranked_map(&self) -> (ranked_map: &RankedMap)
        ensures
            ranked_map@ == self@.state.ranked,
    {
        self.state.ranked_map()
    }

    /// The stored values of the documents.
    pub fn documents(&self) -> (documents: &DocumentStore)
        ensures
            documents@ == self@.state.documents,
    {
        self.state.documents()
    }

    /// The stored value of a field of a document, as the store holds it.
    pub fn raw_field_by_document_id(&self, field: &str, id: DocumentId) -> (raw: Option<&Vec<u8>>)
        ensures
            match raw {
                Some(bytes) => stored_field(self@, field@, id) == Some(bytes@),
                None => stored_field(self@, field@, id) is None,
            },
    {
        let n = self.schema.len();
        match self.schema.attribute(field) {
            Some(attribute) => {
                proof {
                    lemma_place_unique(self@.schema.attrs, attribute.0 as int);
                }
                self.state.documents().get(DocumentKeyAttr { document: id, attribute })
            },
            None => None,
        }
    }

    /// Replaces the settings.
    pub fn set_config(&mut self, config: Config)
        ensures
            final(self)@ == (Snapshot { config, ..old(self)@ }),
    {
        self.config = config;
    }

    /// Commits a batch: its operations are applied in their order.
    pub fn apply(&mut self, batch: WriteBatch)
        ensures
            final(self)@.schema == old(self)@.schema,
            final(self)@.config == old(self)@.config,
            final(self)@.state == apply_ops(old(self)@.state, batch@),
    {
        self.state.apply(batch);
    }

    /// An update of this index. It holds nothing yet but the kinds of number
    /// that the ranked attributes of the index have.
    pub fn start_update(&self) -> (update: Update)
        ensures
            update.schema() == self@.schema,
            crate::update::starts_from(self@.state.ranked, update@),
            update@.wf(),
            crate::update::consistent(update@),
    {
        Update::starting_from(self.schema.duplicate(), self.state.ranked_map())
    }
}

/// The stored value of a field of a document: none where the schema does not
/// declare the field or the store holds no value for it.
pub open spec fn stored_field(snapshot: Snapshot, field: Seq<char>, id: DocumentId) -> Option<
    Seq<u8>,
> {
    if declares(snapshot.schema.attrs, field) {
        let key = DocumentKeyAttr {
            document: id,
            attribute: SchemaAttr(place_of(snapshot.schema.attrs, field) as u16),
        };
        if snapshot.state.documents.dom().contains(key) {
            Some(snapshot.state.documents[key])
        } else {
            None
        }
    } else {
        None
    }
}

/// An index of the database, under its name.
pub struct NamedIndex {
    pub name: String,
    pub view: DatabaseView,
}

/// The indexes of one engine, each under its name.
pub struct Database {
    indexes: Vec<NamedIndex>,
}

/// Whether an index has the given name.
pub open spec fn has_index(indexes: Seq<NamedIndex>, name: Seq<char>) -> bool {
    exists|i: int| 0 <= i < indexes.len() && (#[trigger] indexes[i]).name@ == name
}

/// The place of the first index with the given name.
pub open spec fn index_place(indexes: Seq<NamedIndex>, name: Seq<char>) -> int {
    choose|i: int|
        0 <= i < indexes.len() && (#[trigger] indexes[i]).name@ == name && forall|k: int|
            0 <= k < i ==> (#[trigger] indexes[k]).name@ != name
}

impl Database {
    /// The indexes, in the order in which they were created.
    pub closed spec fn view(&self) -> Seq<NamedIndex> {
        self.indexes@
    }

    /// A database without indexes.
    pub fn new() -> (db: Database)
        ensures
            db@ == Seq::<NamedIndex>::empty(),
    {
        Database { indexes: Vec::new() }
    }

    fn find(&self, name: &str) -> (place: Option<usize>)
        ensures
            match place {
                Some(i) => has_index(self@, name@) && i == index_place(self@, name@) && i
                    < self@.len() && self@[i as int].name@ == name@,
                None => !has_index(self@, name@),
            },
    {
        let mut i: usize = 0;
        while i < self.indexes.len()
            invariant
                i <= self.indexes.len(),
                forall|k: int| 0 <= k < i ==> (#[trigger] self.indexes[k]).name@ != name@,
            decreases self.indexes.len() - i,
        {
            if same_text(self.indexes[i].name.as_str(), name) {
                proof {
                    let j = index_place(self@, name@);
                    if j < i {
                        assert(self@[j].name@ != name@);
                    }
                    if i < j {
                        assert(self@[i as int].name@ != name@);
                    }
                }
                return Some(i);
            }
            i = i + 1;
        }
        None
    }

    /// Creates an index that holds nothing, unless one has the name already.
    pub fn create_index(&mut self, name: &str, schema: Schema) -> (res: Result<(), DatabaseError>)
        ensures
            has_index(old(self)@, name@) ==> res == Err::<(), DatabaseError>(
                DatabaseError::IndexAlreadyExists,
            ) && final(self)@ == old(self)@,
            !has_index(old(self)@, name@) ==> res is Ok && final(self)@.len() == old(self)@.len()
                + 1 && final(self)@.drop_last() == old(self)@ && final(self)@.last().name@ == name@
                && final(self)@.last().view@.schema == schema@
                && final(self)@.last().view@.state.index == Map::<Seq<char>, Seq<DocIndex>>::empty(),
    {
        match self.find(name) {
            Some(_) => Err(DatabaseError::IndexAlreadyExists),
            None => {
                self.indexes.push(NamedIndex { name: name.to_owned(), view: DatabaseView::new(schema) });
                proof {
                    assert(self@.drop_last() =~= old(self)@);
                }
                Ok(())
            },
        }
    }

    /// Takes an index over as it is, unless one has the name already.
    pub fn restore_index(&mut self, name: &str, view: DatabaseView) -> (res: Result<
        (),
        DatabaseError,
    >)
        ensures
            has_index(old(self)@, name@) ==> res == Err::<(), DatabaseError>(
                DatabaseError::IndexAlreadyExists,
            ) && final(self)@ == old(self)@,
            !has_index(old(self)@, name@) ==> res is Ok && final(self)@.len() == old(self)@.len()
                + 1 && final(self)@.drop_last() == old(self)@ && final(self)@.last().name@ == name@
                && final(self)@.last().view == view,
    {
        match self.find(name) {
            Some(_) => Err(DatabaseError::IndexAlreadyExists),
            None => {
                self.indexes.push(NamedIndex { name: name.to_owned(), view });
                proof {
                    assert(self@.drop_last() =~= old(self)@);
                }
                Ok(())
            },
        }
    }

    /// The names of the indexes, in the order in which they were created.
    pub fn list_indexes(&self) -> (names: Vec<String>)
        ensures
            names.len() == self@.len(),
            forall|i: int| 0 <= i < names.len() ==> (#[trigger] names[i])@ == self@[i].name@,
    {
        let mut names: Vec<String> = Vec::new();
        let mut i: usize = 0;
        while i < self.indexes.len()
            invariant
                i <= self.indexes.len(),
                names.len() == i,
                forall|k: int| 0 <= k < i ==> (#[trigger] names[k])@ == self.indexes[k].name@,
            decreases self.indexes.len() - i,
        {
            names.push(self.indexes[i].name.clone());
            i = i + 1;
        }
        names
    }

    /// Deletes the index of the given name; says whether there was one.
    pub fn delete_index(&mut self, name: &str) -> (deleted: bool)
        ensures
            deleted == has_index(old(self)@, name@),
            deleted ==> final(self)@ == old(self)@.remove(index_place(old(self)@, name@)),
            !deleted ==> final(self)@ == old(self)@,
    {
        match self.find(name) {
            Some(i) => {
                self.indexes.remove(i);
                true
            },
            None => false,
        }
    }

    /// The view of the index of the given name.
    pub fn view_of(&self, name: &str) -> (view: Option<&DatabaseView>)
        ensures
            match view {
                Some(v) => has_index(self@, name@) && *v == self@[index_place(self@, name@)].view,
                None => !has_index(self@, name@),
            },
    {
        match self.find(name) {
            Some(i) => Some(&self.indexes[i].view),
            None => None,
        }
    }

    /// An update of the index of the given name. It holds nothing yet but
    /// the kinds of number that the ranked attributes of the index have.
    pub fn start_update(&self, name: &str) -> (update: Option<Update>)
        ensures
            match update {
                Some(u) => has_index(self@, name@) && u.schema() == self@[index_place(
                    self@,
                    name@,
                )].view@.schema && crate::update::starts_from(
                    self@[index_place(self@, name@)].view@.state.ranked,
                    u@,
                ) && u@.wf() && crate::update::consistent(u@),
                None => !has_index(self@, name@),
            },
    {
        match self.find(name) {
            Some(i) => Some(self.indexes[i].view.start_update()),
            None => None,
        }
    }

    /// Commits a batch to the index of the given name.
    pub fn commit_update(&mut self, name: &str, batch: WriteBatch) -> (res: Result<
        (),
        DatabaseError,
    >)
        ensures
            !has_index(old(self)@, name@) ==> res == Err::<(), DatabaseError>(
                DatabaseError::UnknownIndex,
            ) && final(self)@ == old(self)@,
            has_index(old(self)@, name@) ==> {
                let i = index_place(old(self)@, name@);
                &&& res is Ok
                &&& final(self)@.len() == old(self)@.len()
                &&& forall|k: int|
                    0 <= k < old(self)@.len() && k != i ==> final(self)@[k] == old(self)@[k]
                &&& final(self)@[i].name == old(self)@[i].name
                &&& final(self)@[i].view@.schema == old(self)@[i].view@.schema
                &&& final(self)@[i].view@.config == old(self)@[i].view@.config
                &&& final(self)@[i].view@.state == apply_ops(old(self)@[i].view@.state, batch@)
            },
    {
        match self.find(name) {
            Some(i) => {
                self.indexes[i].view.apply(batch);
                Ok(())
            },
            None => Err(DatabaseError::UnknownIndex),
        }
    }

    /// The settings of the index of the given name.
    pub fn get_config(&self, name: &str) -> (config: Option<&Config>)
        ensures
            match config {
                Some(c) => has_index(self@, name@) && *c == self@[index_place(
                    self@,
                    name@,
                )].view@.config,
                None => !has_index(self@, name@),
            },
    {
        match self.find(name) {
            Some(i) => Some(self.indexes[i].view.config()),
            None => None,
        }
    }

    /// Replaces the settings of the index of the given name; says whether
    /// there is such an index.
    pub fn update_config(&mut self, name: &str, config: Config) -> (updated: bool)
        ensures
            updated == has_index(old(self)@, name@),
            !updated ==> final(self)@ == old(self)@,
            updated ==> {
                let i = index_place(old(self)@, name@);
                &&& final(self)@.len() == old(self)@.len()
                &&& forall|k: int|
                    0 <= k < old(self)@.len() && k != i ==> final(self)@[k] == old(self)@[k]
                &&& final(self)@[i].name == old(self)@[i].name
                &&& final(self)@[i].view@ == (Snapshot { config, ..old(self)@[i].view@ })
            },
    {
        match self.find(name) {
            Some(i) => {
                self.indexes[i].view.set_config(config);
                true
            },
            None => false,
        }
    }
}

} // verus!
