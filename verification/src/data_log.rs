//! The durable log store's verified core: the per-subscription index of
//! publication ids and the entry payloads it serves. The surrounding shell
//! mirrors every accepted entry to one file per publication and rebuilds
//! this state from those files at startup; filesystem failures are its to
//! report, and it records an entry here only after the write succeeded.

use vstd::prelude::*;
use vstd::string::StringExecFns;
use crate::assoc::{
    lookup, keys_unique, unique_seq, lemma_lookup_at, lemma_lookup_absent, lemma_lookup_index,
    lemma_lookup_update_other, lemma_lookup_push, lemma_push_preserves_unique,
};
use crate::ids::{Uid, uid_text, uid_to_string, find_uid, parse_uid, parsed_uid};
use crate::pubsub::{Publication, PublicationView};

verus! {

/// Errors raised by the log store and its shell.
#[derive(Debug, Clone, PartialEq, Eq)]
pub enum DataLogError {
    /// A filesystem operation failed.
    FileSystem(String),
    /// An index reply could not be delivered.
    PullIndex(String),
    /// A log-entry reply could not be delivered.
    PullDataLogEntry(String),
    /// A put request could not be processed.
    PutDataLogEntry(String),
    /// An entry could not be written.
    WriteError(String),
    /// The entry with the named publication id could not be read.
    ReadError(Uid),
}

impl DataLogError {
    /// The textual form reported to callers.
    pub fn message(&self) -> (r: String)
        ensures
            self matches DataLogError::FileSystem(s) ==> r@ == "Fs error: "@ + s@,
            self matches DataLogError::PullIndex(s) ==> r@ == "Failed sending index: "@ + s@,
            self matches DataLogError::PullDataLogEntry(s) ==> r@
                == "Failed sending log entries: "@ + s@,
            self matches DataLogError::PutDataLogEntry(s) ==> r@
                == "Could not process DataLogPut: "@ + s@,
            self matches DataLogError::WriteError(s) ==> r@ == "Could not write data: "@ + s@,
            self matches DataLogError::ReadError(p) ==> r@ == "Could not read data: "@ + uid_text(
                *p,
            ),
    {
        match self {
            DataLogError::FileSystem(s) => {
                let mut m: String = "Fs error: ".to_owned();
                m.append(s.as_str());
                m
            }
            DataLogError::PullIndex(s) => {
                let mut m: String = "Failed sending index: ".to_owned();
                m.append(s.as_str());
                m
            }
            DataLogError::PullDataLogEntry(s) => {
                let mut m: String = "Failed sending log entries: ".to_owned();
                m.append(s.as_str());
                m
            }
            DataLogError::PutDataLogEntry(s) => {
                let mut m: String = "Could not process DataLogPut: ".to_owned();
                m.append(s.as_str());
                m
            }
            DataLogError::WriteError(s) => {
                let mut m: String = "Could not write data: ".to_owned();
                m.append(s.as_str());
                m
            }
            DataLogError::ReadError(p) => {
                let mut m: String = "Could not read data: ".to_owned();
                let t = uid_to_string(p);
                m.append(t.as_str());
                m
            }
        }
    }
}

/// The mathematical content of the log store.
pub ghost struct DataLogView {
    /// Per subscription, the publication ids in arrival order.
    pub index: Seq<(Uid, Vec<Uid>)>,
    /// Per (subscription, publication) pair, the stored payload.
    pub entries: Seq<((Uid, Uid), Vec<u8>)>,
}

/// The publication ids recorded for a subscription; empty when the
/// subscription has no entry.
pub open spec fn index_of(v: DataLogView, sub: Uid) -> Seq<Uid> {
    match lookup(v.index, sub) {
        Some(ids) => ids@,
        None => Seq::<Uid>::empty(),
    }
}

/// The payload stored for a publication of a subscription, if any.
pub open spec fn entry_of(v: DataLogView, sub: Uid, pid: Uid) -> Option<Seq<u8>> {
    match lookup(v.entries, (sub, pid)) {
        Some(d) => Some(d@),
        None => None,
    }
}

/// Every publication id in the index has a stored entry.
pub open spec fn index_covered(v: DataLogView) -> bool {
    forall|i: int, j: int|
        #![trigger v.index[i].1@[j]]
        0 <= i < v.index.len() && 0 <= j < v.index[i].1@.len() ==> lookup(
            v.entries,
            (v.index[i].0, v.index[i].1@[j]),
        ) is Some
}

/// The log store: the in-memory index of publication ids per subscription
/// and the entry payloads it serves.
#[derive(Debug, Clone)]
pub struct DataLogger {
    log_index: Vec<(Uid, Vec<Uid>)>,
    entries: Vec<((Uid, Uid), Vec<u8>)>,
}

impl View for DataLogger {
    type V = DataLogView;

    closed spec fn view(&self) -> DataLogView {
        DataLogView { index: self.log_index@, entries: self.entries@ }
    }
}

impl DataLogger {
    /// Keys are unique, recorded ids are unique per subscription, and every
    /// recorded id has a stored entry.
    pub open spec fn wf(&self) -> bool {
        &&& keys_unique(self@.index)
        &&& keys_unique(self@.entries)
        &&& forall|i: int|
            0 <= i < self@.index.len() ==> unique_seq((#[trigger] self@.index[i]).1@)
        &&& index_covered(self@)
    }

    /// Creates a new, empty log store.
    pub fn new() -> (r: DataLogger)
        ensures
            r@.index == Seq::<(Uid, Vec<Uid>)>::empty(),
            r@.entries == Seq::<((Uid, Uid), Vec<u8>)>::empty(),
            r.wf(),
    {
        let r = DataLogger { log_index: Vec::new(), entries: Vec::new() };
        proof {
            assert(r@.index =~= Seq::<(Uid, Vec<Uid>)>::empty());
            assert(r@.entries =~= Seq::<((Uid, Uid), Vec<u8>)>::empty());
        }
        r
    }

    /// The position of the index record for `sub`, scanning from the front.
    fn index_position(&self, sub: &Uid) -> (r: Option<usize>)
        ensures
            r matches Some(i) ==> i < self@.index.len() && self@.index[i as int].0 == *sub && (
            forall|j: int| 0 <= j < i ==> (#[trigger] self@.index[j]).0 != *sub),
            r is None ==> forall|j: int|
                0 <= j < self@.index.len() ==> (#[trigger] self@.index[j]).0 != *sub,
    {
        let mut i: usize = 0;
        while i < self.log_index.len()
            invariant
                i <= self@.index.len(),
                forall|j: int| 0 <= j < i ==> (#[trigger] self@.index[j]).0 != *sub,
            decreases self@.index.len() - i,
        {
            if self.log_index[i].0 == *sub {
                return Some(i);
            }
            i += 1;
        }
        None
    }

    /// The position of the entry for `(sub, pid)`, scanning from the front.
    fn entry_position(&self, sub: &Uid, pid: &Uid) -> (r: Option<usize>)
        ensures
            r matches Some(i) ==> i < self@.entries.len() && self@.entries[i as int].0 == (
            *sub,
            *pid,
            ) && (forall|j: int|
                0 <= j < i ==> (#[trigger] self@.entries[j]).0 != (*sub, *pid)),
            r is None ==> forall|j: int|
                0 <= j < self@.entries.len() ==> (#[trigger] self@.entries[j]).0 != (*sub, *pid),
    {
        let mut i: usize = 0;
        while i < self.entries.len()
            invariant
                i <= self@.entries.len(),
                forall|j: int| 0 <= j < i ==> (#[trigger] self@.entries[j]).0 != (*sub, *pid),
            decreases self@.entries.len() - i,
        {
            if self.entries[i].0.0 == *sub && self.entries[i].0.1 == *pid {
                return Some(i);
            }
            i += 1;
        }
        None
    }

    /// Records one accepted publication: the payload is stored under the
    /// (subscription, publication) pair and the publication id is added to
    /// the subscription's index. Recording the same pair again replaces the
    /// payload and leaves the index unchanged.
    pub fn put(&mut self, publication: &Publication)
        requires
            old(self).wf(),
        ensures
            final(self).wf(),
            entry_of(
                final(self)@,
                publication.subscription_id,
                publication.publication_id,
            ) == Some(publication@.data),
            forall|s2: Uid, p2: Uid|
                (s2, p2) != (publication.subscription_id, publication.publication_id)
                    ==> #[trigger] entry_of(final(self)@, s2, p2) == entry_of(old(self)@, s2, p2),
            index_of(final(self)@, publication.subscription_id) == (if index_of(
                old(self)@,
                publication.subscription_id,
            ).contains(publication.publication_id) {
                index_of(old(self)@, publication.subscription_id)
            } else {
                index_of(old(self)@, publication.subscription_id).push(
                    publication.publication_id,
                )
            }),
            index_of(final(self)@, publication.subscription_id).contains(
                publication.publication_id,
            ),
            forall|s2: Uid|
                s2 != publication.subscription_id ==> #[trigger] index_of(final(self)@, s2)
                    == index_of(old(self)@, s2),
    {
        let sub = publication.subscription_id;
        let pid = publication.publication_id;
        let ghost e0 = self@.entries;

        match self.entry_position(&sub, &pid) {
            Some(i) => {
                self.entries[i] = ((sub, pid), publication.data.clone());
                proof {
                    let e1 = self@.entries;
                    assert(e1 == e0.update(i as int, ((sub, pid), e1[i as int].1)));
                    assert forall|p: int, q: int|
                        0 <= p < q < e1.len() implies (#[trigger] e1[p]).0 != (
                    #[trigger] e1[q]).0 by {
                        assert(e0[p].0 == e1[p].0);
                        assert(e0[q].0 == e1[q].0);
                    }
                    assert forall|j: int| 0 <= j < i implies (#[trigger] e1[j]).0 != (
                    sub,
                    pid,
                    ) by {
                        assert(e1[j] == e0[j]);
                    }
                    lemma_lookup_at(e1, (sub, pid), i as int);
                    assert(e1[i as int].1@ =~= publication.data@);
                    assert forall|k: (Uid, Uid)| k != (sub, pid) implies lookup(e1, k) == lookup(
                        e0,
                        k,
                    ) by {
                        lemma_lookup_update_other(e0, i as int, ((sub, pid), e1[i as int].1), k);
                    }
                }
            }
            None => {
                let n = self.entries.len();
                self.entries.push(((sub, pid), publication.data.clone()));
                proof {
                    let e1 = self@.entries;
                    assert(e1 == e0.push(((sub, pid), e1[n as int].1)));
                    assert forall|p: int, q: int|
                        0 <= p < q < e1.len() implies (#[trigger] e1[p]).0 != (
                    #[trigger] e1[q]).0 by {
                        if q < e0.len() {
                            assert(e0[p].0 == e1[p].0);
                            assert(e0[q].0 == e1[q].0);
                        } else {
                            assert(e1[p] == e0[p]);
                            assert(e1[q].0 == (sub, pid));
                        }
                    }
                    assert forall|j: int| 0 <= j < n implies (#[trigger] e1[j]).0 != (
                    sub,
                    pid,
                    ) by {
                        assert(e1[j] == e0[j]);
                    }
                    lemma_lookup_at(e1, (sub, pid), n as int);
                    assert(e1[n as int].1@ =~= publication.data@);
                    assert forall|k: (Uid, Uid)| k != (sub, pid) implies lookup(e1, k) == lookup(
                        e0,
                        k,
                    ) by {
                        lemma_lookup_push(e0, ((sub, pid), e1[n as int].1), k);
                        lemma_lookup_absent(e0, (sub, pid));
                    }
                }
            }
        }

        let ghost x0 = self@.index;
        let ghost e1 = self@.entries;
        match self.index_position(&sub) {
            Some(i) => {
                proof {
                    lemma_lookup_at(x0, sub, i as int);
                }
                match find_uid(&self.log_index[i].1, &pid) {
                    Some(_) => {
                        proof {
                            assert(index_of(self@, sub).contains(pid));
                            assert forall|s2: Uid| s2 != sub implies #[trigger] index_of(
                                self@,
                                s2,
                            ) == index_of(DataLogView { index: x0, entries: e0 }, s2) by {}
                        }
                    }
                    None => {
                        let ghost ids0 = self@.index[i as int].1@;
                        self.log_index[i].1.push(pid);
                        proof {
                            let x1 = self@.index;
                            assert(x1 == x0.update(i as int, (x1[i as int].0, x1[i as int].1)));
                            assert(x1[i as int].0 == sub);
                            assert(x1[i as int].1@ == ids0.push(pid));
                            assert forall|p: int, q: int|
                                0 <= p < q < x1.len() implies (#[trigger] x1[p]).0 != (
                            #[trigger] x1[q]).0 by {
                                assert(x0[p].0 == x1[p].0);
                                assert(x0[q].0 == x1[q].0);
                            }
                            assert forall|j: int| 0 <= j < i implies (#[trigger] x1[j]).0
                                != sub by {
                                assert(x1[j] == x0[j]);
                            }
                            lemma_lookup_at(x1, sub, i as int);
                            lemma_push_preserves_unique(ids0, pid);
                            assert forall|k: Uid| k != sub implies lookup(x1, k) == lookup(
                                x0,
                                k,
                            ) by {
                                lemma_lookup_update_other(
                                    x0,
                                    i as int,
                                    (sub, x1[i as int].1),
                                    k,
                                );
                            }
                            assert forall|p: int|
                                0 <= p < x1.len() implies unique_seq(
                                (#[trigger] x1[p]).1@,
                            ) by {
                                if p != i {
                                    assert(x1[p] == x0[p]);
                                }
                            }
                        }
                    }
                }
            }
            None => {
                let mut ids: Vec<Uid> = Vec::new();
                ids.push(pid);
                let n = self.log_index.len();
                self.log_index.push((sub, ids));
                proof {
                    let x1 = self@.index;
                    assert(x1 == x0.push((sub, x1[n as int].1)));
                    assert(x1[n as int].1@ =~= seq![pid]);
                    assert forall|p: int, q: int|
                        0 <= p < q < x1.len() implies (#[trigger] x1[p]).0 != (
                    #[trigger] x1[q]).0 by {
                        if q < x0.len() {
                            assert(x0[p].0 == x1[p].0);
                            assert(x0[q].0 == x1[q].0);
                        } else {
                            assert(x1[p] == x0[p]);
                            assert(x1[q].0 == sub);
                        }
                    }
                    assert forall|j: int| 0 <= j < n implies (#[trigger] x1[j]).0 != sub by {
                        assert(x1[j] == x0[j]);
                    }
                    lemma_lookup_at(x1, sub, n as int);
                    lemma_lookup_absent(x0, sub);
                    assert forall|k: Uid| k != sub implies lookup(x1, k) == lookup(x0, k) by {
                        lemma_lookup_push(x0, (sub, x1[n as int].1), k);
                    }
                    assert forall|p: int|
                        0 <= p < x1.len() implies unique_seq((#[trigger] x1[p]).1@) by {
                        if p < n {
                            assert(x1[p] == x0[p]);
                        }
                    }
                }
            }
        }

        proof {
            if !index_of(old(self)@, sub).contains(pid) {
                let fin = index_of(self@, sub);
                assert(fin == index_of(old(self)@, sub).push(pid));
                assert(fin[fin.len() - 1] == pid);
            }
        }
        proof {
            let v1 = self@;
            let v0 = DataLogView { index: x0, entries: e0 };
            assert forall|i: int, j: int|
                #![trigger v1.index[i].1@[j]]
                0 <= i < v1.index.len() && 0 <= j < v1.index[i].1@.len() implies lookup(
                v1.entries,
                (v1.index[i].0, v1.index[i].1@[j]),
            ) is Some by {
                let key = (v1.index[i].0, v1.index[i].1@[j]);
                if key == (sub, pid) {
                } else {
                    assert(entry_of(v1, key.0, key.1) == entry_of(
                        DataLogView { index: x0, entries: e0 },
                        key.0,
                        key.1,
                    ));
                    if i < x0.len() && x0[i] == v1.index[i] {
                        assert(lookup(e0, key) is Some);
                    } else {
                        assert(lookup(e0, key) is Some);
                    }
                }
            }
        }
    }

    /// Serves the index of a subscription: all recorded publication ids, or
    /// the empty set when the subscription has no entry. This never fails.
    pub fn pull_index(&self, data_log_id: &Uid) -> (r: Vec<Uid>)
        requires
            self.wf(),
        ensures
            r@ == index_of(self@, *data_log_id),
    {
        match self.index_position(data_log_id) {
            Some(i) => {
                proof {
                    lemma_lookup_at(self@.index, *data_log_id, i as int);
                }
                let r = self.log_index[i].1.clone();
                proof {
                    assert(r@ =~= self@.index[i as int].1@);
                }
                r
            }
            None => {
                proof {
                    lemma_lookup_absent(self@.index, *data_log_id);
                }
                let r: Vec<Uid> = Vec::new();
                proof {
                    assert(r@ =~= Seq::<Uid>::empty());
                }
                r
            }
        }
    }

    /// Serves the requested entries of a subscription, in the requested
    /// order. Succeeds exactly when every requested id has a stored entry;
    /// a missing entry fails the whole request with a read error naming the
    /// first missing id.
    pub fn pull_entries(&self, data_log_id: &Uid, selection: &Vec<Uid>) -> (r: Result<
        Vec<Publication>,
        DataLogError,
    >)
        requires
            self.wf(),
        ensures
            r is Ok <==> (forall|j: int|
                0 <= j < selection@.len() ==> entry_of(
                    self@,
                    *data_log_id,
                    #[trigger] selection@[j],
                ) is Some),
            r matches Ok(list) ==> list@.len() == selection@.len() && (forall|j: int|
                0 <= j < selection@.len() ==> (#[trigger] list@[j])@ == (PublicationView {
                    publication_id: selection@[j],
                    subscription_id: *data_log_id,
                    data: entry_of(self@, *data_log_id, selection@[j])->Some_0,
                })),
            r matches Err(e) ==> e matches DataLogError::ReadError(p) && (exists|j: int|
                0 <= j < selection@.len() && #[trigger] selection@[j] == p) && entry_of(
                self@,
                *data_log_id,
                e->ReadError_0,
            ) is None,
    {
        let mut list: Vec<Publication> = Vec::new();
        let mut j: usize = 0;
        while j < selection.len()
            invariant
                self.wf(),
                j <= selection@.len(),
                list@.len() == j,
                forall|k: int|
                    0 <= k < j ==> entry_of(
                        self@,
                        *data_log_id,
                        #[trigger] selection@[k],
                    ) is Some,
                forall|k: int|
                    0 <= k < j ==> (#[trigger] list@[k])@ == (PublicationView {
                        publication_id: selection@[k],
                        subscription_id: *data_log_id,
                        data: entry_of(self@, *data_log_id, selection@[k])->Some_0,
                    }),
            decreases selection@.len() - j,
        {
            let pid = selection[j];
            match self.entry_position(data_log_id, &pid) {
                Some(i) => {
                    proof {
                        lemma_lookup_at(self@.entries, (*data_log_id, pid), i as int);
                    }
                    let p = Publication {
                        publication_id: pid,
                        subscription_id: *data_log_id,
                        data: self.entries[i].1.clone(),
                    };
                    proof {
                        assert(p.data@ =~= self@.entries[i as int].1@);
                    }
                    list.push(p);
                }
                None => {
                    proof {
                        lemma_lookup_absent(self@.entries, (*data_log_id, pid));
                    }
                    return Err(DataLogError::ReadError(pid));
                }
            }
            j += 1;
        }
        Ok(list)
    }
}

/// The identifiers among a list of directory-entry names, in listing
/// order; names that parse as no identifier are passed over.
pub open spec fn parsed_ids(names: Seq<Seq<char>>) -> Seq<Uid>
    decreases names.len(),
{
    if names.len() == 0 {
        Seq::<Uid>::empty()
    } else {
        match parsed_uid(names[0]) {
            Some(u) => seq![u] + parsed_ids(names.drop_first()),
            None => parsed_ids(names.drop_first()),
        }
    }
}

/// Reads entry ids out of directory-entry names: every name that parses as
/// an identifier is kept, in listing order.
pub fn list_entry_ids(names: &Vec<String>) -> (r: Vec<Uid>)
    ensures
        r@ == parsed_ids(names@.map_values(|s: String| s@)),
{
    let ghost m = names@.map_values(|s: String| s@);
    let mut r: Vec<Uid> = Vec::new();
    let mut i: usize = 0;
    proof {
        assert(m.skip(0) =~= m);
        assert(Seq::<Uid>::empty() + parsed_ids(m) =~= parsed_ids(m));
    }
    while i < names.len()
        invariant
            i <= m.len(),
            m == names@.map_values(|s: String| s@),
            parsed_ids(m) == r@ + parsed_ids(m.skip(i as int)),
        decreases m.len() - i,
    {
        proof {
            assert(m.skip(i as int)[0] == m[i as int]);
            assert(m.skip(i as int).drop_first() =~= m.skip(i as int + 1));
        }
        let ghost r_pre = r@;
        match parse_uid(names[i].as_str()) {
            Ok(u) => {
                r.push(u);
                proof {
                    assert(r@ =~= r_pre + seq![u]);
                    assert(r_pre + (seq![u] + parsed_ids(m.skip(i as int + 1))) =~= r@
                        + parsed_ids(m.skip(i as int + 1)));
                }
            }
            Err(_) => { }
        }
        i += 1;
    }
    proof {
        assert(m.skip(m.len() as int) =~= Seq::<Seq<char>>::empty());
        assert(r@ + Seq::<Uid>::empty() =~= r@);
    }
    r
}

/// Law: reading back a recorded publication yields exactly the recorded
/// bytes. For any store view that holds `b` under `(s, pid)`, the
/// entry-read success condition holds for the selection `[pid]`, and the
/// one publication served carries `pid`, `s` and `b` — so a submit whose
/// publication was recorded is answered by a later entry read with that
/// publication alone.
pub proof fn lemma_recorded_entry_read_back(v: DataLogView, s: Uid, pid: Uid, b: Seq<u8>)
    requires
        entry_of(v, s, pid) == Some(b),
    ensures
        forall|j: int| 0 <= j < seq![pid].len() ==> entry_of(v, s, seq![pid][j]) is Some,
        (PublicationView {
            publication_id: seq![pid][0],
            subscription_id: s,
            data: entry_of(v, s, seq![pid][0])->Some_0,
        }) == (PublicationView { publication_id: pid, subscription_id: s, data: b }),
{
    assert(seq![pid][0] == pid);
}

/// Law: in a well-formed log store every publication id that the index
/// lists has a stored, readable entry; the index never points into the
/// void. (The converse need not hold: an entry may exist on disk before a
/// rebuild has indexed it.)
pub proof fn lemma_indexed_entry_readable(v: DataLogView, sub: Uid, pid: Uid)
    requires
        index_covered(v),
        index_of(v, sub).contains(pid),
    ensures
        entry_of(v, sub, pid) is Some,
{
    lemma_lookup_index(v.index, sub);
    let i = choose|i: int|
        0 <= i < v.index.len() && #[trigger] v.index[i] == (sub, lookup(v.index, sub)->Some_0);
    let ids = v.index[i].1@;
    let j = choose|j: int| 0 <= j < ids.len() && ids[j] == pid;
    assert(v.index[i].1@[j] == pid);
    assert(lookup(v.entries, (v.index[i].0, v.index[i].1@[j])) is Some);
}

} // verus!
