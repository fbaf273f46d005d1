//! The document store: owner of all stored field values.
//!
//! A document is an immutable record with a dense integer identifier and a
//! mapping from field name to stored value. The index holds identifiers
//! only; materializing a result record always goes through this store.

use vstd::prelude::*;

verus! {

/// One stored field of a document.
pub struct Field {
    pub name: String,
    pub value: String,
}

/// The mathematical value of a field: its name and value as character
/// sequences.
pub struct FieldV {
    pub name: Seq<char>,
    pub value: Seq<char>,
}

impl View for Field {
    type V = FieldV;

    open spec fn view(&self) -> FieldV {
        FieldV { name: self.name@, value: self.value@ }
    }
}

impl Clone for Field {
    fn clone(&self) -> (r: Self)
        ensures
            r == *self,
    {
        Field { name: self.name.clone(), value: self.value.clone() }
    }
}

/// An immutable stored record.
pub struct Document {
    pub id: u64,
    pub fields: Vec<Field>,
}

/// The mathematical value of a document.
pub struct DocumentV {
    pub id: u64,
    pub fields: Seq<FieldV>,
}

impl View for Document {
    type V = DocumentV;

    open spec fn view(&self) -> DocumentV {
        DocumentV { id: self.id, fields: self.fields@.map(|i: int, f: Field| f@) }
    }
}

impl Clone for Document {
    fn clone(&self) -> (r: Self)
        ensures
            r@ == self@,
            r.id == self.id,
    {
        let fields = self.fields.clone();
        proof {
            assert forall|i: int| 0 <= i < fields@.len() implies fields@[i] == self.fields@[i] by {
                assert(cloned::<Field>(self.fields@[i], fields@[i]));
            }
            assert(fields@ =~= self.fields@);
        }
        Document { id: self.id, fields }
    }
}

/// The mathematical values of a sequence of documents.
pub open spec fn doc_views(ds: Seq<Document>) -> Seq<DocumentV> {
    ds.map(|i: int, d: Document| d@)
}

/// The first document of the sequence carrying `id`, if any.
pub open spec fn find_doc(docs: Seq<DocumentV>, id: u64) -> Option<DocumentV>
    decreases docs.len(),
{
    if docs.len() == 0 {
        None
    } else if docs[0].id == id {
        Some(docs[0])
    } else {
        find_doc(docs.drop_first(), id)
    }
}

/// Identifier lookup for stored documents.
pub struct DocumentStore {
    pub docs: Vec<Document>,
}

impl View for DocumentStore {
    type V = Seq<DocumentV>;

    open spec fn view(&self) -> Seq<DocumentV> {
        self.docs@.map(|i: int, d: Document| d@)
    }
}

impl DocumentStore {
    /// Identifiers are assigned densely at build time, in increasing order.
    pub open spec fn wf(&self) -> bool {
        forall|i: int, j: int| 0 <= i < j < self@.len() ==> self@[i].id < self@[j].id
    }

    /// Look a document up by identifier. `None` reports an identifier the
    /// store never held: callers treat it as an integrity fault of the
    /// snapshot, fatal for the one request only.
    pub fn get(&self, id: u64) -> (r: Option<&Document>)
        ensures
            match r {
                Some(d) => find_doc(self@, id) == Some(d@),
                None => find_doc(self@, id) is None,
            },
    {
        let n = self.docs.len();
        let mut i: usize = 0;
        proof {
            assert(self@.skip(0) =~= self@);
        }
        while i < n
            invariant
                n == self.docs.len(),
                0 <= i <= n,
                self@.len() == n,
                find_doc(self@, id) == find_doc(self@.skip(i as int), id),
                forall|k: int| 0 <= k < i ==> self@[k].id != id,
            decreases n - i,
        {
            let ghost rest = self@.skip(i as int);
            proof {
                assert(rest[0] == self@[i as int]);
                assert(rest.drop_first() =~= self@.skip(i as int + 1));
            }
            if self.docs[i].id == id {
                let d = &self.docs[i];
                assert(d@ == self@[i as int]);
                return Some(d);
            }
            i = i + 1;
        }
        proof {
            assert(self@.skip(n as int) =~= Seq::<DocumentV>::empty());
        }
        None
    }
}

} // verus!
