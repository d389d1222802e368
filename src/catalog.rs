use vstd::prelude::*;
use vstd::string::StringExecFns;

use crate::json::{decode_string_map, encode_string_map, json_string_map, map_json};
use crate::text::{lemma_name_lt_irreflexive, lemma_name_lt_total, lemma_name_lt_transitive, name_lt, owned, str_lt};

verus! {

// ---------------------------------------------------------------------------
// Rows and the map they describe
// ---------------------------------------------------------------------------

/// The map that a list of `(name, definition)` rows describes; a later row wins.
pub open spec fn rows_map(rows: Seq<(Seq<char>, Seq<char>)>) -> Map<Seq<char>, Seq<char>>
    decreases rows.len(),
{
    if rows.len() == 0 {
        Map::empty()
    } else {
        rows_map(rows.drop_last()).insert(rows.last().0, rows.last().1)
    }
}

pub open spec fn rows_view(rows: Seq<(String, String)>) -> Seq<(Seq<char>, Seq<char>)> {
    rows.map_values(|e: (String, String)| (e.0@, e.1@))
}

pub open spec fn has_key(rows: Seq<(Seq<char>, Seq<char>)>, k: Seq<char>) -> bool {
    exists|i: int| 0 <= i < rows.len() && #[trigger] rows[i].0 == k
}

/// Names strictly increase along the rows.
pub open spec fn keys_sorted(rows: Seq<(Seq<char>, Seq<char>)>) -> bool {
    forall|i: int, j: int| 0 <= i < j < rows.len() ==> name_lt(#[trigger] rows[i].0, #[trigger] rows[j].0)
}

proof fn lemma_rows_map_dom(rows: Seq<(Seq<char>, Seq<char>)>, k: Seq<char>)
    ensures
        rows_map(rows).contains_key(k) <==> has_key(rows, k),
    decreases rows.len(),
{
    if rows.len() > 0 {
        lemma_rows_map_dom(rows.drop_last(), k);
        if has_key(rows, k) && rows.last().0 != k {
            let i = choose|i: int| 0 <= i < rows.len() && #[trigger] rows[i].0 == k;
            assert(rows.drop_last()[i].0 == k);
        }
        if has_key(rows.drop_last(), k) {
            let i = choose|i: int| 0 <= i < rows.len() - 1 && #[trigger] rows.drop_last()[i].0 == k;
            assert(rows[i].0 == k);
        }
    }
}

proof fn lemma_rows_map_value(rows: Seq<(Seq<char>, Seq<char>)>, i: int)
    requires
        keys_sorted(rows),
        0 <= i < rows.len(),
    ensures
        rows_map(rows).contains_key(rows[i].0),
        rows_map(rows)[rows[i].0] == rows[i].1,
    decreases rows.len(),
{
    if i < rows.len() - 1 {
        let last = rows.len() - 1;
        assert(name_lt(rows[i].0, rows[last].0));
        lemma_name_lt_irreflexive(rows[i].0);
        assert(keys_sorted(rows.drop_last()));
        lemma_rows_map_value(rows.drop_last(), i);
    }
}

/// A map built from rows holds exactly their names.
pub proof fn lemma_rows_map_dom_pub(rows: Seq<(Seq<char>, Seq<char>)>, k: Seq<char>)
    ensures
        rows_map(rows).contains_key(k) <==> exists|i: int| 0 <= i < rows.len() && rows[i].0 == k,
{
    lemma_rows_map_dom(rows, k);
}

/// In a map built from sorted rows, each name maps to its row's value.
pub proof fn lemma_rows_map_value_pub(rows: Seq<(Seq<char>, Seq<char>)>, i: int)
    requires
        keys_sorted(rows),
        0 <= i < rows.len(),
    ensures
        rows_map(rows)[rows[i].0] == rows[i].1,
{
    lemma_rows_map_value(rows, i);
}

/// Two sorted row lists with the same keys and the same value at each key
/// describe the same map.
proof fn lemma_rows_map_ext(
    rows: Seq<(Seq<char>, Seq<char>)>,
    m: Map<Seq<char>, Seq<char>>,
)
    requires
        keys_sorted(rows),
        forall|k: Seq<char>| #[trigger] m.contains_key(k) <==> has_key(rows, k),
        forall|i: int| 0 <= i < rows.len() ==> #[trigger] m[rows[i].0] == rows[i].1,
    ensures
        rows_map(rows) == m,
{
    assert forall|k: Seq<char>| #[trigger] rows_map(rows).contains_key(k) <==> m.contains_key(k) by {
        lemma_rows_map_dom(rows, k);
    }
    assert forall|k: Seq<char>| #[trigger] m.contains_key(k) implies rows_map(rows)[k] == m[k] by {
        let i = choose|i: int| 0 <= i < rows.len() && #[trigger] rows[i].0 == k;
        lemma_rows_map_value(rows, i);
    }
    assert(rows_map(rows) =~= m);
}

// ---------------------------------------------------------------------------
// The store
// ---------------------------------------------------------------------------

/// The in-memory catalog: view name to the definition JSON exactly as submitted.
///
/// Entries are kept in name order, so each name occurs once and listing is sorted.
pub struct CatalogState {
    entries: Vec<(String, String)>,
}

impl View for CatalogState {
    type V = Map<Seq<char>, Seq<char>>;

    closed spec fn view(&self) -> Map<Seq<char>, Seq<char>> {
        rows_map(rows_view(self.entries@))
    }
}

pub open spec fn map_is_empty(m: Map<Seq<char>, Seq<char>>) -> bool {
    m.dom() == Set::<Seq<char>>::empty()
}

impl CatalogState {
    /// Entries are in strictly increasing name order.
    pub closed spec fn wf(&self) -> bool {
        keys_sorted(rows_view(self.entries@))
    }

    /// An empty catalog.
    pub fn new() -> (r: CatalogState)
        ensures
            r.wf(),
            r@ == Map::<Seq<char>, Seq<char>>::empty(),
    {
        let r = CatalogState { entries: Vec::new() };
        assert(rows_view(r.entries@) =~= Seq::<(Seq<char>, Seq<char>)>::empty());
        r
    }

    /// The first position whose name is not before `name`, and whether that
    /// position holds `name`.
    fn position(&self, name: &str) -> (r: (usize, bool))
        requires
            self.wf(),
        ensures
            r.0 <= self.entries.len(),
            forall|i: int| 0 <= i < r.0 ==> name_lt(#[trigger] rows_view(self.entries@)[i].0, name@),
            r.0 < self.entries.len() ==> name_lt(name@, rows_view(self.entries@)[r.0 as int].0)
                || rows_view(self.entries@)[r.0 as int].0 == name@,
            r.1 <==> r.0 < self.entries.len() && rows_view(self.entries@)[r.0 as int].0 == name@,
            r.1 <==> has_key(rows_view(self.entries@), name@),
    {
        let ghost rows = rows_view(self.entries@);
        let mut p: usize = 0;
        while p < self.entries.len() && str_lt(self.entries[p].0.as_str(), name)
            invariant
                0 <= p <= self.entries.len(),
                rows == rows_view(self.entries@),
                forall|i: int| 0 <= i < p ==> name_lt(#[trigger] rows[i].0, name@),
            decreases self.entries.len() - p,
        {
            p = p + 1;
        }
        if p == self.entries.len() {
            assert(!has_key(rows, name@)) by {
                if has_key(rows, name@) {
                    let i = choose|i: int| 0 <= i < rows.len() && #[trigger] rows[i].0 == name@;
                    lemma_name_lt_irreflexive(name@);
                }
            }
            return (p, false);
        }
        let found = !str_lt(name, self.entries[p].0.as_str());
        proof {
            let kp = rows[p as int].0;
            assert(!name_lt(kp, name@));
            if found {
                if kp != name@ {
                    lemma_name_lt_total(kp, name@);
                }
            } else {
                lemma_name_lt_irreflexive(name@);
                assert(!has_key(rows, name@)) by {
                    if has_key(rows, name@) {
                        let i = choose|i: int| 0 <= i < rows.len() && #[trigger] rows[i].0 == name@;
                        if i > p {
                            lemma_name_lt_transitive(name@, kp, rows[i].0);
                        }
                    }
                }
            }
        }
        (p, found)
    }

    /// Whether a view named `name` is registered.
    pub fn contains(&self, name: &str) -> (r: bool)
        requires
            self.wf(),
        ensures
            r == self@.contains_key(name@),
    {
        proof {
            lemma_rows_map_dom(rows_view(self.entries@), name@);
        }
        self.position(name).1
    }

    /// The definition JSON registered under `name`.
    pub fn get(&self, name: &str) -> (r: Option<String>)
        requires
            self.wf(),
        ensures
            r is Some <==> self@.contains_key(name@),
            r matches Some(s) ==> s@ == self@[name@],
    {
        proof {
            lemma_rows_map_dom(rows_view(self.entries@), name@);
        }
        let (p, found) = self.position(name);
        if found {
            proof {
                lemma_rows_map_value(rows_view(self.entries@), p as int);
            }
            Some(owned(self.entries[p].1.as_str()))
        } else {
            None
        }
    }

    /// Whether the catalog holds no view.
    pub fn is_empty(&self) -> (r: bool)
        requires
            self.wf(),
        ensures
            r == map_is_empty(self@),
    {
        proof {
            let rows = rows_view(self.entries@);
            if rows.len() > 0 {
                lemma_rows_map_dom(rows, rows[0].0);
                assert(self@.dom().contains(rows[0].0));
            } else {
                assert(self@.dom() =~= Set::<Seq<char>>::empty());
            }
        }
        self.entries.len() == 0
    }

    /// The registered `(name, definition)` pairs, in name order.
    pub fn entries(&self) -> (r: Vec<(String, String)>)
        requires
            self.wf(),
        ensures
            rows_map(rows_view(r@)) == self@,
            keys_sorted(rows_view(r@)),
    {
        let mut r: Vec<(String, String)> = Vec::new();
        let mut i: usize = 0;
        while i < self.entries.len()
            invariant
                0 <= i <= self.entries.len(),
                r.len() == i,
                forall|k: int|
                    0 <= k < i ==> (#[trigger] r@[k]).0@ == self.entries@[k].0@ && r@[k].1@
                        == self.entries@[k].1@,
            decreases self.entries.len() - i,
        {
            let name = owned(self.entries[i].0.as_str());
            let json = owned(self.entries[i].1.as_str());
            let ghost before = r@;
            r.push((name, json));
            assert(r@[i as int] == (name, json));
            assert(forall|k: int| 0 <= k < i ==> r@[k] == before[k]);
            i = i + 1;
        }
        assert(rows_view(r@) =~= rows_view(self.entries@));
        r
    }

    /// The registered names, in name order.
    pub fn names(&self) -> (r: Vec<String>)
        requires
            self.wf(),
        ensures
            forall|k: Seq<char>| self@.contains_key(k) <==> exists|i: int| 0 <= i < r.len() && #[trigger] r@[i]@ == k,
            forall|i: int, j: int| 0 <= i < j < r.len() ==> name_lt(#[trigger] r@[i]@, #[trigger] r@[j]@),
    {
        let ghost rows = rows_view(self.entries@);
        let mut r: Vec<String> = Vec::new();
        let mut i: usize = 0;
        while i < self.entries.len()
            invariant
                0 <= i <= self.entries.len(),
                rows == rows_view(self.entries@),
                r.len() == i,
                forall|k: int| 0 <= k < i ==> #[trigger] r@[k]@ == rows[k].0,
            decreases self.entries.len() - i,
        {
            r.push(owned(self.entries[i].0.as_str()));
            i = i + 1;
        }
        assert forall|k: Seq<char>| self@.contains_key(k) <==> exists|i: int| 0 <= i < r.len() && #[trigger] r@[i]@ == k by {
            lemma_rows_map_dom(rows, k);
            if has_key(rows, k) {
                let i = choose|i: int| 0 <= i < rows.len() && #[trigger] rows[i].0 == k;
                assert(r@[i]@ == k);
            }
            if exists|i: int| 0 <= i < r.len() && #[trigger] r@[i]@ == k {
                let i = choose|i: int| 0 <= i < r.len() && #[trigger] r@[i]@ == k;
                assert(rows[i].0 == k);
            }
        }
        r
    }

    /// Register `json` under `name`, replacing what was there.
    pub fn put(&mut self, name: String, json: String)
        requires
            old(self).wf(),
        ensures
            final(self).wf(),
            final(self)@ == old(self)@.insert(name@, json@),
    {
        let ghost old_rows = rows_view(self.entries@);
        let ghost target = self@.insert(name@, json@);
        let (p, found) = self.position(name.as_str());
        proof {
            assert forall|k: Seq<char>| #[trigger] self@.contains_key(k) <==> has_key(old_rows, k) by {
                lemma_rows_map_dom(old_rows, k);
            }
            assert forall|i: int| 0 <= i < old_rows.len() implies #[trigger] self@[old_rows[i].0] == old_rows[i].1 by {
                lemma_rows_map_value(old_rows, i);
            }
        }
        if found {
            self.entries.set(p, (name, json));
        } else {
            self.entries.insert(p, (name, json));
        }
        proof {
            let rows = rows_view(self.entries@);
            let e = (name@, json@);
            if found {
                assert(rows =~= old_rows.update(p as int, e));
            } else {
                assert(rows =~= old_rows.insert(p as int, e));
            }
            assert(keys_sorted(rows)) by {
                assert forall|i: int, j: int| 0 <= i < j < rows.len() implies name_lt(#[trigger] rows[i].0, #[trigger] rows[j].0) by {
                    if found {
                        assert(rows[i].0 == old_rows[i].0);
                        assert(rows[j].0 == old_rows[j].0);
                    } else {
                        if j < p {
                            assert(rows[i].0 == old_rows[i].0 && rows[j].0 == old_rows[j].0);
                        } else if j == p {
                            assert(rows[i].0 == old_rows[i].0);
                        } else if i == p {
                            assert(rows[j].0 == old_rows[j - 1].0);
                            if j - 1 > p {
                                lemma_name_lt_transitive(name@, old_rows[p as int].0, old_rows[j - 1].0);
                            }
                        } else if i < p {
                            assert(rows[i].0 == old_rows[i].0 && rows[j].0 == old_rows[j - 1].0);
                        } else {
                            assert(rows[i].0 == old_rows[i - 1].0 && rows[j].0 == old_rows[j - 1].0);
                        }
                    }
                }
            }
            assert forall|k: Seq<char>| #[trigger] target.contains_key(k) <==> has_key(rows, k) by {
                if k == name@ {
                    assert(rows[p as int].0 == k);
                } else if has_key(old_rows, k) {
                    let i = choose|i: int| 0 <= i < old_rows.len() && #[trigger] old_rows[i].0 == k;
                    if found || i < p {
                        assert(rows[i].0 == k);
                    } else {
                        assert(rows[i + 1].0 == k);
                    }
                } else if has_key(rows, k) {
                    let i = choose|i: int| 0 <= i < rows.len() && #[trigger] rows[i].0 == k;
                    if found || i < p {
                        assert(old_rows[i].0 == k);
                    } else if i > p {
                        assert(old_rows[i - 1].0 == k);
                    }
                }
            }
            assert forall|i: int| 0 <= i < rows.len() implies #[trigger] target[rows[i].0] == rows[i].1 by {
                if i != p {
                    if found || i < p {
                        assert(rows[i] == old_rows[i]);
                        lemma_name_lt_irreflexive(name@);
                        if rows[i].0 == name@ {
                            if i < p {
                                assert(name_lt(old_rows[i].0, name@));
                            } else {
                                assert(name_lt(old_rows[p as int].0, old_rows[i].0));
                            }
                        }
                    } else {
                        assert(rows[i] == old_rows[i - 1]);
                        if rows[i].0 == name@ {
                            lemma_name_lt_irreflexive(name@);
                            if i - 1 > p {
                                lemma_name_lt_transitive(name@, old_rows[p as int].0, old_rows[i - 1].0);
                            }
                        }
                    }
                }
            }
            lemma_rows_map_ext(rows, target);
        }
    }

    /// Remove `name`, if registered.
    pub fn remove(&mut self, name: &str)
        requires
            old(self).wf(),
        ensures
            final(self).wf(),
            final(self)@ == old(self)@.remove(name@),
    {
        let ghost old_rows = rows_view(self.entries@);
        let ghost target = self@.remove(name@);
        let (p, found) = self.position(name);
        proof {
            assert forall|k: Seq<char>| #[trigger] self@.contains_key(k) <==> has_key(old_rows, k) by {
                lemma_rows_map_dom(old_rows, k);
            }
            assert forall|i: int| 0 <= i < old_rows.len() implies #[trigger] self@[old_rows[i].0] == old_rows[i].1 by {
                lemma_rows_map_value(old_rows, i);
            }
        }
        if !found {
            proof {
                assert(target =~= self@);
            }
            return;
        }
        self.entries.remove(p);
        proof {
            let rows = rows_view(self.entries@);
            assert(rows =~= old_rows.remove(p as int));
            assert(keys_sorted(rows)) by {
                assert forall|i: int, j: int| 0 <= i < j < rows.len() implies name_lt(#[trigger] rows[i].0, #[trigger] rows[j].0) by {
                    let oi = if i < p { i } else { i + 1 };
                    let oj = if j < p { j } else { j + 1 };
                    assert(rows[i].0 == old_rows[oi].0 && rows[j].0 == old_rows[oj].0);
                }
            }
            lemma_name_lt_irreflexive(name@);
            assert forall|k: Seq<char>| #[trigger] target.contains_key(k) <==> has_key(rows, k) by {
                if k != name@ && has_key(old_rows, k) {
                    let i = choose|i: int| 0 <= i < old_rows.len() && #[trigger] old_rows[i].0 == k;
                    if i < p {
                        assert(rows[i].0 == k);
                    } else {
                        assert(rows[i - 1].0 == k);
                    }
                }
                if has_key(rows, k) {
                    let i = choose|i: int| 0 <= i < rows.len() && #[trigger] rows[i].0 == k;
                    let oi = if i < p { i } else { i + 1 };
                    assert(old_rows[oi].0 == k);
                    if k == name@ {
                        if oi < p {
                            assert(name_lt(old_rows[oi].0, old_rows[p as int].0));
                        } else {
                            assert(name_lt(old_rows[p as int].0, old_rows[oi].0));
                        }
                    }
                }
            }
            assert forall|i: int| 0 <= i < rows.len() implies #[trigger] target[rows[i].0] == rows[i].1 by {
                let oi = if i < p { i } else { i + 1 };
                assert(rows[i] == old_rows[oi]);
                if rows[i].0 == name@ {
                    if oi < p {
                        assert(name_lt(old_rows[oi].0, old_rows[p as int].0));
                    } else {
                        assert(name_lt(old_rows[p as int].0, old_rows[oi].0));
                    }
                }
            }
            lemma_rows_map_ext(rows, target);
        }
    }

    /// A catalog holding the given rows; a later row wins over an earlier one
    /// with the same name.
    pub fn from_rows(rows: &Vec<(String, String)>) -> (r: CatalogState)
        ensures
            r.wf(),
            r@ == rows_map(rows_view(rows@)),
    {
        let mut r = CatalogState::new();
        let mut i: usize = 0;
        while i < rows.len()
            invariant
                0 <= i <= rows.len(),
                r.wf(),
                r@ == rows_map(rows_view(rows@).take(i as int)),
            decreases rows.len() - i,
        {
            let name = owned(rows[i].0.as_str());
            let json = owned(rows[i].1.as_str());
            r.put(name, json);
            assert(rows_view(rows@).take(i + 1).drop_last() =~= rows_view(rows@).take(i as int));
            i = i + 1;
        }
        assert(rows_view(rows@).take(i as int) =~= rows_view(rows@));
        r
    }
}


// ---------------------------------------------------------------------------
// Errors and operations
// ---------------------------------------------------------------------------

/// Errors of catalog operations.
#[derive(Debug)]
pub enum CatalogError {
    /// The submitted definition did not validate; the message says why.
    Invalid { message: String },
    /// A view with this name is already registered.
    AlreadyExists { name: String },
    /// No view with this name is registered.
    NotFound { name: String },
    /// The durable write failed; the message says why.
    Persist { message: String },
    /// The background writer has exited.
    WriterGone,
}

pub enum CatalogErrorView {
    Invalid { message: Seq<char> },
    AlreadyExists { name: Seq<char> },
    NotFound { name: Seq<char> },
    Persist { message: Seq<char> },
    WriterGone,
}

impl View for CatalogError {
    type V = CatalogErrorView;

    open spec fn view(&self) -> CatalogErrorView {
        match self {
            CatalogError::Invalid { message } => CatalogErrorView::Invalid { message: message@ },
            CatalogError::AlreadyExists { name } => CatalogErrorView::AlreadyExists { name: name@ },
            CatalogError::NotFound { name } => CatalogErrorView::NotFound { name: name@ },
            CatalogError::Persist { message } => CatalogErrorView::Persist { message: message@ },
            CatalogError::WriterGone => CatalogErrorView::WriterGone,
        }
    }
}

/// The message of a catalog error.
pub open spec fn catalog_error_text(e: CatalogErrorView) -> Seq<char> {
    match e {
        CatalogErrorView::Invalid { message } => message,
        CatalogErrorView::AlreadyExists { name } => "semantic view '"@ + name
            + "' already exists; call drop_semantic_view first"@,
        CatalogErrorView::NotFound { name } => "semantic view '"@ + name + "' does not exist"@,
        CatalogErrorView::Persist { message } => message,
        CatalogErrorView::WriterGone => "the catalog writer has exited"@,
    }
}

impl CatalogError {
    /// The human-readable message of this error.
    pub fn message(&self) -> (r: String)
        ensures
            r@ == catalog_error_text(self@),
    {
        match self {
            CatalogError::Invalid { message } => owned(message.as_str()),
            CatalogError::AlreadyExists { name } => {
                let mut out = String::new();
                out.append("semantic view '");
                out.append(name.as_str());
                out.append("' already exists; call drop_semantic_view first");
                assert(out@ =~= catalog_error_text(self@));
                out
            },
            CatalogError::NotFound { name } => {
                let mut out = String::new();
                out.append("semantic view '");
                out.append(name.as_str());
                out.append("' does not exist");
                assert(out@ =~= catalog_error_text(self@));
                out
            },
            CatalogError::Persist { message } => owned(message.as_str()),
            CatalogError::WriterGone => owned("the catalog writer has exited"),
        }
    }
}

/// A durable write, as sent to the background writer.
#[derive(Debug)]
pub enum CatalogOp {
    Insert { name: String, json: String },
    Delete { name: String },
}

pub enum CatalogOpView {
    Insert { name: Seq<char>, json: Seq<char> },
    Delete { name: Seq<char> },
}

impl View for CatalogOp {
    type V = CatalogOpView;

    open spec fn view(&self) -> CatalogOpView {
        match self {
            CatalogOp::Insert { name, json } => CatalogOpView::Insert { name: name@, json: json@ },
            CatalogOp::Delete { name } => CatalogOpView::Delete { name: name@ },
        }
    }
}

/// Why a durable write did not happen.
#[derive(Debug)]
pub enum PersistError {
    /// The durable store reported a failure.
    Store { message: String },
    /// The background writer has exited.
    WriterGone,
}

/// The map after an operation took effect.
pub open spec fn apply_spec(m: Map<Seq<char>, Seq<char>>, op: CatalogOpView) -> Map<Seq<char>, Seq<char>> {
    match op {
        CatalogOpView::Insert { name, json } => m.insert(name, json),
        CatalogOpView::Delete { name } => m.remove(name),
    }
}

pub open spec fn validation_view(v: Result<(), String>) -> Result<(), Seq<char>> {
    match v {
        Ok(_) => Ok(()),
        Err(m) => Err(m@),
    }
}

pub open spec fn op_result_view(r: Result<CatalogOp, CatalogError>) -> Result<CatalogOpView, CatalogErrorView> {
    match r {
        Ok(op) => Ok(op@),
        Err(e) => Err(e@),
    }
}

pub open spec fn unit_result_view(r: Result<(), CatalogError>) -> Result<(), CatalogErrorView> {
    match r {
        Ok(_) => Ok(()),
        Err(e) => Err(e@),
    }
}

/// The checks before an insert: the definition validated and the name is free.
pub open spec fn plan_insert_spec(
    m: Map<Seq<char>, Seq<char>>,
    name: Seq<char>,
    json: Seq<char>,
    validation: Result<(), Seq<char>>,
) -> Result<CatalogOpView, CatalogErrorView> {
    match validation {
        Err(message) => Err(CatalogErrorView::Invalid { message }),
        Ok(_) => if m.contains_key(name) {
            Err(CatalogErrorView::AlreadyExists { name })
        } else {
            Ok(CatalogOpView::Insert { name, json })
        },
    }
}

/// The check before a delete: the name is registered.
pub open spec fn plan_delete_spec(m: Map<Seq<char>, Seq<char>>, name: Seq<char>) -> Result<
    CatalogOpView,
    CatalogErrorView,
> {
    if m.contains_key(name) {
        Ok(CatalogOpView::Delete { name })
    } else {
        Err(CatalogErrorView::NotFound { name })
    }
}

/// An operation that passes its checks takes effect; one that fails leaves the map as it was.
pub open spec fn outcome_spec(
    m: Map<Seq<char>, Seq<char>>,
    plan: Result<CatalogOpView, CatalogErrorView>,
) -> (Result<(), CatalogErrorView>, Map<Seq<char>, Seq<char>>) {
    match plan {
        Ok(op) => (Ok(()), apply_spec(m, op)),
        Err(e) => (Err(e), m),
    }
}

/// Check that `json` may be registered under `name`: `validation` is the outcome
/// of parsing it. Gives the write to make durable.
pub fn plan_insert(state: &CatalogState, name: &str, json: &str, validation: &Result<(), String>) -> (r:
    Result<CatalogOp, CatalogError>)
    requires
        state.wf(),
    ensures
        op_result_view(r) == plan_insert_spec(state@, name@, json@, validation_view(*validation)),
{
    match validation {
        Err(message) => Err(CatalogError::Invalid { message: owned(message.as_str()) }),
        Ok(_) => {
            if state.contains(name) {
                Err(CatalogError::AlreadyExists { name: owned(name) })
            } else {
                Ok(CatalogOp::Insert { name: owned(name), json: owned(json) })
            }
        },
    }
}

/// Check that `name` may be removed. Gives the write to make durable.
pub fn plan_delete(state: &CatalogState, name: &str) -> (r: Result<CatalogOp, CatalogError>)
    requires
        state.wf(),
    ensures
        op_result_view(r) == plan_delete_spec(state@, name@),
{
    if state.contains(name) {
        Ok(CatalogOp::Delete { name: owned(name) })
    } else {
        Err(CatalogError::NotFound { name: owned(name) })
    }
}

/// Apply a planned write to the map once its durable write has been attempted:
/// only a durable success changes the map.
pub fn apply_op(state: &mut CatalogState, op: CatalogOp, outcome: Result<(), PersistError>) -> (r:
    Result<(), CatalogError>)
    requires
        old(state).wf(),
    ensures
        final(state).wf(),
        match outcome {
            Ok(_) => r is Ok && final(state)@ == apply_spec(old(state)@, op@),
            Err(PersistError::Store { message }) => r matches Err(CatalogError::Persist { message: m })
                && m@ == message@ && final(state)@ == old(state)@,
            Err(PersistError::WriterGone) => r matches Err(CatalogError::WriterGone) && final(state)@
                == old(state)@,
        },
{
    match outcome {
        Err(PersistError::Store { message }) => Err(CatalogError::Persist { message }),
        Err(PersistError::WriterGone) => Err(CatalogError::WriterGone),
        Ok(_) => {
            match op {
                CatalogOp::Insert { name, json } => state.put(name, json),
                CatalogOp::Delete { name } => state.remove(name.as_str()),
            }
            Ok(())
        },
    }
}

/// Register `json` under `name` in the in-memory catalog. `validation` is the
/// outcome of parsing `json` as a definition: a failure aborts with nothing
/// changed, as does a name that is already registered.
pub fn catalog_insert(state: &mut CatalogState, name: &str, json: &str, validation: &Result<(), String>) -> (r:
    Result<(), CatalogError>)
    requires
        old(state).wf(),
    ensures
        final(state).wf(),
        (unit_result_view(r), final(state)@) == outcome_spec(
            old(state)@,
            plan_insert_spec(old(state)@, name@, json@, validation_view(*validation)),
        ),
{
    let op = plan_insert(state, name, json, validation)?;
    apply_op(state, op, Ok(()))
}

/// Remove `name` from the in-memory catalog; fails with `NotFound`, changing
/// nothing, when it is not registered.
pub fn catalog_delete(state: &mut CatalogState, name: &str) -> (r: Result<(), CatalogError>)
    requires
        old(state).wf(),
    ensures
        final(state).wf(),
        (unit_result_view(r), final(state)@) == outcome_spec(old(state)@, plan_delete_spec(old(state)@, name@)),
{
    let op = plan_delete(state, name)?;
    apply_op(state, op, Ok(()))
}

/// An insert succeeds exactly when the name was absent, and a lookup afterwards
/// gives the submitted text; a failed insert changes nothing.
pub proof fn lemma_insert_then_lookup(m: Map<Seq<char>, Seq<char>>, name: Seq<char>, json: Seq<char>)
    ensures
        ({
            let (r, after) = outcome_spec(m, plan_insert_spec(m, name, json, Ok(())));
            &&& r is Ok <==> !m.contains_key(name)
            &&& r is Ok ==> after.contains_key(name) && after[name] == json
            &&& r is Err ==> after == m
        }),
{
}

/// A delete succeeds exactly when the name was present, and a lookup afterwards
/// finds nothing; a failed delete changes nothing.
pub proof fn lemma_delete_then_lookup(m: Map<Seq<char>, Seq<char>>, name: Seq<char>)
    ensures
        ({
            let (r, after) = outcome_spec(m, plan_delete_spec(m, name));
            &&& r is Ok <==> m.contains_key(name)
            &&& !after.contains_key(name)
            &&& r is Err ==> after == m
        }),
{
}

// ---------------------------------------------------------------------------
// Loading and the sidecar file
// ---------------------------------------------------------------------------

/// The map a load produces: a non-empty sidecar wins over the table's rows.
pub open spec fn loaded_map(rows: Seq<(Seq<char>, Seq<char>)>, sidecar: Map<Seq<char>, Seq<char>>) -> Map<
    Seq<char>,
    Seq<char>,
> {
    if map_is_empty(sidecar) {
        rows_map(rows)
    } else {
        sidecar
    }
}

/// Build the catalog from the durable table's rows and the sidecar's content.
/// The flag says whether the table must be rewritten from the result's entries.
pub fn load_catalog(table_rows: &Vec<(String, String)>, sidecar: CatalogState) -> (r: (CatalogState, bool))
    requires
        sidecar.wf(),
    ensures
        r.0.wf(),
        r.0@ == loaded_map(rows_view(table_rows@), sidecar@),
        r.1 == !map_is_empty(sidecar@),
{
    if sidecar.is_empty() {
        (CatalogState::from_rows(table_rows), false)
    } else {
        (sidecar, true)
    }
}

/// Loading is idempotent: the table that a load leaves behind (rewritten from the
/// sidecar's entries when the sidecar is not empty) loads to the same map.
pub proof fn lemma_load_idempotent(
    rows: Seq<(Seq<char>, Seq<char>)>,
    sidecar: Map<Seq<char>, Seq<char>>,
    rewritten: Seq<(Seq<char>, Seq<char>)>,
)
    requires
        rows_map(rewritten) == sidecar,
    ensures
        loaded_map(if map_is_empty(sidecar) { rows } else { rewritten }, sidecar) == loaded_map(
            rows,
            sidecar,
        ),
{
}

/// The sidecar path of a store: `.semantic_views` appended to the store's path.
pub fn sidecar_path(db_path: &str) -> (r: String)
    ensures
        r@ == db_path@ + ".semantic_views"@,
{
    let mut p = owned(db_path);
    p.append(".semantic_views");
    p
}

/// The sidecar's text for the whole catalog; reading it back gives the catalog.
pub fn sidecar_text(state: &CatalogState) -> (r: String)
    requires
        state.wf(),
    ensures
        r@ == map_json(state@),
        json_string_map(r@) == Some(state@),
{
    let rows = state.entries();
    match encode_string_map(&rows) {
        Ok(s) => s,
        Err(_) => String::new(),
    }
}

/// The map a sidecar text holds: its string-to-string object, or empty.
pub open spec fn sidecar_map(text: Seq<char>) -> Map<Seq<char>, Seq<char>> {
    match json_string_map(text) {
        Some(m) => m,
        None => Map::empty(),
    }
}

/// The catalog a sidecar text holds; empty when the text holds no
/// string-to-string JSON object.
pub fn read_sidecar_text(text: &str) -> (r: CatalogState)
    ensures
        r.wf(),
        r@ == sidecar_map(text@),
{
    match decode_string_map(text) {
        Some(rows) => CatalogState::from_rows(&rows),
        None => CatalogState::new(),
    }
}


/// Sidecar round trip: the text written for a catalog (`sidecar_text`) reads
/// back (`read_sidecar_text`) to exactly that catalog's map.
pub proof fn lemma_sidecar_round_trip(m: Map<Seq<char>, Seq<char>>, text: Seq<char>)
    requires
        json_string_map(text) == Some(m),
    ensures
        sidecar_map(text) == m,
{
}

} // verus!
