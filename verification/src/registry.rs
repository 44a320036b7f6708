//! The service registry of a node: its own registrations and those learned
//! from linked nodes, with versioned synchronisation between nodes.
//!
//! Every entry carries the order in which it was observed; when several
//! entries share a service name, the one observed last is the one that
//! lookups return.
use vstd::prelude::*;
use vstd::string::*;

use crate::pid::{PidView, ProcessId};
use crate::text::str_eq;
use crate::jsonform::{form_like, is_form_like};
use crate::value::{duplicate_vals, lemma_vals_view, same_vals, vals_view, Val, ValView};

verus! {

/// The view of a list of string pairs.
pub open spec fn pairs_view(v: Seq<(String, String)>) -> Seq<(Seq<char>, Seq<char>)> {
    v.map_values(|p: (String, String)| (p.0@, p.1@))
}

/// The view of a list of keywords with their metadata forms.
pub open spec fn metas_view(v: Seq<(String, Vec<Val>)>) -> Seq<(Seq<char>, Seq<ValView>)> {
    v.map_values(|p: (String, Vec<Val>)| (p.0@, vals_view(p.1@)))
}

/// What a service publishes besides its name and process: its interface
/// (the call patterns it answers), documentation and metadata forms by
/// keyword, in the order recorded (the last one recorded for a keyword
/// counts).
#[derive(Debug)]
pub struct Details {
    pub interface: Vec<Val>,
    pub docs: Vec<(String, String)>,
    pub metadata: Vec<(String, Vec<Val>)>,
}

pub struct DetailsView {
    pub interface: Seq<ValView>,
    pub docs: Seq<(Seq<char>, Seq<char>)>,
    pub metadata: Seq<(Seq<char>, Seq<ValView>)>,
}

impl View for Details {
    type V = DetailsView;

    open spec fn view(&self) -> DetailsView {
        DetailsView {
            interface: vals_view(self.interface@),
            docs: pairs_view(self.docs@),
            metadata: metas_view(self.metadata@),
        }
    }
}

fn copy_metas(v: &Vec<(String, Vec<Val>)>) -> (r: Vec<(String, Vec<Val>)>)
    ensures
        metas_view(r@) == metas_view(v@),
{
    let mut r: Vec<(String, Vec<Val>)> = Vec::new();
    let mut i: usize = 0;
    while i < v.len()
        invariant
            i <= v.len(),
            metas_view(r@) =~= metas_view(v@.take(i as int)),
        decreases v.len() - i,
    {
        r.push((v[i].0.clone(), duplicate_vals(&v[i].1)));
        proof {
            assert(metas_view(v@.take(i + 1)) =~= metas_view(v@.take(i as int)).push(
                (v@[i as int].0@, vals_view(v@[i as int].1@)),
            ));
        }
        i = i + 1;
    }
    proof {
        assert(v@.take(v.len() as int) =~= v@);
    }
    r
}

fn same_metas(a: &Vec<(String, Vec<Val>)>, b: &Vec<(String, Vec<Val>)>) -> (r: bool)
    ensures
        r == (metas_view(a@) == metas_view(b@)),
{
    if a.len() != b.len() {
        proof {
            assert(metas_view(a@).len() != metas_view(b@).len());
        }
        return false;
    }
    let mut i: usize = 0;
    while i < a.len()
        invariant
            a.len() == b.len(),
            i <= a.len(),
            forall|j: int| 0 <= j < i ==> a@[j].0@ == b@[j].0@ && vals_view(a@[j].1@) == vals_view(b@[j].1@),
        decreases a.len() - i,
    {
        if a[i].0 != b[i].0 || !same_vals(&a[i].1, &b[i].1) {
            proof {
                assert(metas_view(a@)[i as int] != metas_view(b@)[i as int]);
            }
            return false;
        }
        i = i + 1;
    }
    proof {
        assert(metas_view(a@) =~= metas_view(b@));
    }
    true
}

fn copy_pairs(v: &Vec<(String, String)>) -> (r: Vec<(String, String)>)
    ensures
        pairs_view(r@) == pairs_view(v@),
{
    let mut r: Vec<(String, String)> = Vec::new();
    let mut i: usize = 0;
    while i < v.len()
        invariant
            i <= v.len(),
            pairs_view(r@) =~= pairs_view(v@.take(i as int)),
        decreases v.len() - i,
    {
        r.push((v[i].0.clone(), v[i].1.clone()));
        proof {
            assert(pairs_view(v@.take(i + 1)) =~= pairs_view(v@.take(i as int)).push(
                (v@[i as int].0@, v@[i as int].1@),
            ));
        }
        i = i + 1;
    }
    proof {
        assert(v@.take(v.len() as int) =~= v@);
    }
    r
}

fn same_pairs(a: &Vec<(String, String)>, b: &Vec<(String, String)>) -> (r: bool)
    ensures
        r == (pairs_view(a@) == pairs_view(b@)),
{
    if a.len() != b.len() {
        proof {
            assert(pairs_view(a@).len() != pairs_view(b@).len());
        }
        return false;
    }
    let mut i: usize = 0;
    while i < a.len()
        invariant
            a.len() == b.len(),
            i <= a.len(),
            forall|j: int| 0 <= j < i ==> a@[j].0@ == b@[j].0@ && a@[j].1@ == b@[j].1@,
        decreases a.len() - i,
    {
        if a[i].0 != b[i].0 || a[i].1 != b[i].1 {
            proof {
                assert(pairs_view(a@)[i as int] != pairs_view(b@)[i as int]);
            }
            return false;
        }
        i = i + 1;
    }
    proof {
        assert(pairs_view(a@) =~= pairs_view(b@));
    }
    true
}

impl Details {
    /// No interface, docs or metadata.
    pub fn new() -> (r: Details)
        ensures
            r@.interface.len() == 0,
            r@.docs.len() == 0,
            r@.metadata.len() == 0,
    {
        let r = Details { interface: Vec::new(), docs: Vec::new(), metadata: Vec::new() };
        proof {
            assert(r@.interface =~= Seq::empty());
            assert(r@.docs =~= Seq::empty());
            assert(r@.metadata =~= Seq::empty());
        }
        r
    }

    /// A copy with the same contents.
    pub fn duplicate(&self) -> (r: Details)
        ensures
            r@ == self@,
    {
        Details {
            interface: duplicate_vals(&self.interface),
            docs: copy_pairs(&self.docs),
            metadata: copy_metas(&self.metadata),
        }
    }

    /// Whether both hold the same contents.
    pub fn same(&self, other: &Details) -> (r: bool)
        ensures
            r == (self@ == other@),
    {
        same_vals(&self.interface, &other.interface) && same_pairs(&self.docs, &other.docs)
            && same_metas(&self.metadata, &other.metadata)
    }
}

/// A service as nodes announce it to each other.
#[derive(Debug)]
pub struct ServiceDescription {
    pub name: String,
    pub pid: ProcessId,
    pub details: Details,
}

pub struct DescView {
    pub name: Seq<char>,
    pub pid: PidView,
    pub details: DetailsView,
}

impl View for ServiceDescription {
    type V = DescView;

    open spec fn view(&self) -> DescView {
        DescView { name: self.name@, pid: self.pid@, details: self.details@ }
    }
}

impl ServiceDescription {
    /// A copy with the same contents.
    pub fn duplicate(&self) -> (r: ServiceDescription)
        ensures
            r@ == self@,
    {
        ServiceDescription {
            name: self.name.clone(),
            pid: self.pid.duplicate(),
            details: self.details.duplicate(),
        }
    }
}

/// A request to register the calling process as a service.
#[derive(Debug)]
pub struct Registration {
    keyword: String,
    details: Details,
    overwrite: bool,
}

pub struct RegistrationView {
    pub keyword: Seq<char>,
    pub details: DetailsView,
    pub overwrite: bool,
}

impl View for Registration {
    type V = RegistrationView;

    closed spec fn view(&self) -> RegistrationView {
        RegistrationView { keyword: self.keyword@, details: self.details@, overwrite: self.overwrite }
    }
}

impl Registration {
    /// Registration under `keyword`, without interface, docs or metadata,
    /// that does not replace an existing local registration.
    pub fn new(keyword: &str) -> (r: Registration)
        ensures
            r@.keyword == keyword@,
            r@.details.interface.len() == 0,
            r@.details.docs.len() == 0,
            r@.details.metadata.len() == 0,
            !r@.overwrite,
    {
        Registration { keyword: String::from_str(keyword), details: Details::new(), overwrite: false }
    }

    /// Whether this registration replaces a local one of the same name.
    pub fn overwrite(&mut self, overwrite: bool)
        ensures
            final(self)@ == (RegistrationView { overwrite, ..old(self)@ }),
    {
        self.overwrite = overwrite;
    }

    /// Sets the published interface.
    pub fn interface(&mut self, interface: Vec<Val>)
        ensures
            final(self)@ == (RegistrationView {
                details: DetailsView { interface: vals_view(interface@), ..old(self)@.details },
                ..old(self)@
            }),
    {
        self.details.interface = interface;
    }

    /// Records the documentation of `keyword`.
    pub fn docs(&mut self, keyword: String, doc: String)
        ensures
            final(self)@ == (RegistrationView {
                details: DetailsView {
                    docs: old(self)@.details.docs.push((keyword@, doc@)),
                    ..old(self)@.details
                },
                ..old(self)@
            }),
    {
        self.details.docs.push((keyword, doc));
        proof {
            assert(pairs_view(self.details.docs@) =~= pairs_view(old(self).details.docs@).push(
                (keyword@, doc@),
            ));
        }
    }

    /// Records the metadata forms of `keyword`.
    pub fn metadata(&mut self, keyword: String, metadata: Vec<Val>)
        ensures
            final(self)@ == (RegistrationView {
                details: DetailsView {
                    metadata: old(self)@.details.metadata.push((keyword@, vals_view(metadata@))),
                    ..old(self)@.details
                },
                ..old(self)@
            }),
    {
        let ghost m = vals_view(metadata@);
        self.details.metadata.push((keyword, metadata));
        proof {
            assert(metas_view(self.details.metadata@) =~= metas_view(
                old(self).details.metadata@,
            ).push((keyword@, m)));
        }
    }}

/// Identifies one entry of the registry: the number it was observed as.
#[derive(Debug, Clone, Copy, PartialEq, Eq, Structural)]
pub struct EntryId(pub u64);

/// A registered service, local to this node or learned from another node.
#[derive(Debug)]
pub struct Entry {
    desc: ServiceDescription,
    local: bool,
    observed: u64,
}

pub struct EntryView {
    pub desc: DescView,
    pub local: bool,
    pub observed: u64,
}

impl View for Entry {
    type V = EntryView;

    closed spec fn view(&self) -> EntryView {
        EntryView { desc: self.desc@, local: self.local, observed: self.observed }
    }
}

/// The node an entry's process runs on.
pub open spec fn entry_node(e: EntryView) -> Seq<char> {
    e.desc.pid.node
}

/// `e` was learned from node `node`.
pub open spec fn remote_on(e: EntryView, node: Seq<char>) -> bool {
    !e.local && e.desc.pid.node == node
}

impl Entry {
    /// The service name.
    pub fn keyword(&self) -> (r: &str)
        ensures
            r@ == self@.desc.name,
    {
        self.desc.name.as_str()
    }

    /// The service's process.
    pub fn pid(&self) -> (r: ProcessId)
        ensures
            r@ == self@.desc.pid,
    {
        self.desc.pid.duplicate()
    }

    /// The node the service runs on.
    pub fn node(&self) -> (r: &str)
        ensures
            r@ == entry_node(self@),
    {
        self.desc.pid.node()
    }

    /// The published interface.
    pub fn interface(&self) -> (r: &Vec<Val>)
        ensures
            vals_view(r@) == self@.desc.details.interface,
    {
        &self.desc.details.interface
    }

    /// Whether the service runs on this node.
    pub fn is_local(&self) -> (r: bool)
        ensures
            r == self@.local,
    {
        self.local
    }

    /// When the registry observed this entry, relative to its other entries.
    pub fn observed(&self) -> (r: u64)
        ensures
            r == self@.observed,
    {
        self.observed
    }

    /// The identity of this entry.
    pub fn id(&self) -> (r: EntryId)
        ensures
            r.0 == self@.observed,
    {
        EntryId(self.observed)
    }

    /// The documentation recorded for `keyword`, if any: the one recorded
    /// last.
    pub fn doc(&self, keyword: &str) -> (r: Option<&String>)
        ensures
            match r {
                Some(d) => exists|i: int|
                    0 <= i < self@.desc.details.docs.len() && self@.desc.details.docs[i].0
                        == keyword@ && self@.desc.details.docs[i].1 == d@ && forall|j: int|
                        i < j < self@.desc.details.docs.len() ==> self@.desc.details.docs[j].0
                            != keyword@,
                None => forall|i: int|
                    0 <= i < self@.desc.details.docs.len() ==> self@.desc.details.docs[i].0
                        != keyword@,
            },
    {
        let docs = &self.desc.details.docs;
        let mut i: usize = docs.len();
        while i > 0
            invariant
                docs == &self.desc.details.docs,
                i <= docs.len(),
                forall|j: int| i <= j < docs.len() ==> docs@[j].0@ != keyword@,
            decreases i,
        {
            i = i - 1;
            if str_eq(docs[i].0.as_str(), keyword) {
                proof {
                    assert(self@.desc.details.docs[i as int] == (docs@[i as int].0@, docs@[i as int].1@));
                    assert forall|j: int| i < j < self@.desc.details.docs.len() implies self@.desc.details.docs[j].0 != keyword@ by {
                        assert(self@.desc.details.docs[j] == (docs@[j].0@, docs@[j].1@));
                    }
                }
                return Some(&docs[i].1);
            }
        }
        proof {
            assert forall|j: int| 0 <= j < self@.desc.details.docs.len() implies self@.desc.details.docs[j].0 != keyword@ by {
                assert(self@.desc.details.docs[j] == (docs@[j].0@, docs@[j].1@));
            }
        }
        None
    }

    /// The metadata forms recorded for `keyword`: the ones recorded last,
    /// or none.
    pub fn metadata(&self, keyword: &str) -> (r: Vec<Val>)
        ensures
            (exists|i: int|
                0 <= i < self@.desc.details.metadata.len() && self@.desc.details.metadata[i].0
                    == keyword@ && self@.desc.details.metadata[i].1 == vals_view(r@) && forall|j: int|
                    i < j < self@.desc.details.metadata.len() ==> self@.desc.details.metadata[j].0
                        != keyword@) || (r@.len() == 0 && forall|i: int|
                0 <= i < self@.desc.details.metadata.len() ==> self@.desc.details.metadata[i].0
                    != keyword@),
    {
        let metas = &self.desc.details.metadata;
        let mut i: usize = metas.len();
        while i > 0
            invariant
                metas == &self.desc.details.metadata,
                i <= metas.len(),
                forall|j: int| i <= j < metas.len() ==> metas@[j].0@ != keyword@,
            decreases i,
        {
            i = i - 1;
            if str_eq(metas[i].0.as_str(), keyword) {
                proof {
                    assert(self@.desc.details.metadata[i as int] == (metas@[i as int].0@, vals_view(metas@[i as int].1@)));
                    assert forall|j: int| i < j < self@.desc.details.metadata.len() implies self@.desc.details.metadata[j].0 != keyword@ by {
                        assert(self@.desc.details.metadata[j] == (metas@[j].0@, vals_view(metas@[j].1@)));
                    }
                }
                return duplicate_vals(&metas[i].1);
            }
        }
        proof {
            assert forall|j: int| 0 <= j < self@.desc.details.metadata.len() implies self@.desc.details.metadata[j].0 != keyword@ by {
                assert(self@.desc.details.metadata[j] == (metas@[j].0@, vals_view(metas@[j].1@)));
            }
        }
        Vec::new()
    }

    /// How other nodes learn of this entry.
    pub fn description(&self) -> (r: ServiceDescription)
        ensures
            r@ == self@.desc,
    {
        self.desc.duplicate()
    }

    /// A copy of this entry.
    pub fn duplicate(&self) -> (r: Entry)
        ensures
            r@ == self@,
    {
        Entry { desc: self.desc.duplicate(), local: self.local, observed: self.observed }
    }
}

/// What the registry announces about its own services.
#[derive(Debug)]
pub enum RegistryEvent {
    Up { revision: u64, service: ServiceDescription },
    Down { revision: u64, name: String, pid: ProcessId },
}

pub enum EventView {
    Up { revision: u64, service: DescView },
    Down { revision: u64, name: Seq<char>, pid: PidView },
}

impl View for RegistryEvent {
    type V = EventView;

    open spec fn view(&self) -> EventView {
        match self {
            RegistryEvent::Up { revision, service } => EventView::Up {
                revision: *revision,
                service: service@,
            },
            RegistryEvent::Down { revision, name, pid } => EventView::Down {
                revision: *revision,
                name: name@,
                pid: pid@,
            },
        }
    }
}

/// Errors the registry answers with.
#[derive(Debug, Clone, PartialEq, Eq)]
pub enum RegistryError {
    /// A local process is already registered under this name.
    Exists(String),
    /// A node announced a service that runs on another node.
    ForeignService,
    /// Nothing is registered under the name asked about.
    NoService,
}

impl RegistryError {
    /// The error as text.
    pub fn message(&self) -> (r: String)
        ensures
            match self {
                RegistryError::Exists(k) => r@ == "Registered process exists for "@ + k@,
                RegistryError::ForeignService => r@ == "foreign service in node update"@,
                RegistryError::NoService => r@ == "No service found"@,
            },
    {
        match self {
            RegistryError::Exists(k) => {
                let mut s = String::from_str("Registered process exists for ");
                s.append(k.as_str());
                s
            },
            RegistryError::ForeignService => String::from_str("foreign service in node update"),
            RegistryError::NoService => String::from_str("No service found"),
        }
    }
}

/// What can be asked of a registered service.
#[derive(Debug, Clone, Copy, PartialEq, Eq, Structural)]
pub enum ServiceQuery {
    Pid,
    Interface,
}

/// The answer to a [ServiceQuery].
#[derive(Debug)]
pub enum ServiceAnswer {
    Pid(ProcessId),
    Interface(Vec<Val>),
}

impl ServiceQuery {
    /// The query that a keyword names: `pid` or `interface`.
    pub fn parse(query: &str) -> (r: Option<ServiceQuery>)
        ensures
            query@ == seq!['p', 'i', 'd'] ==> r == Some(ServiceQuery::Pid),
            query@ == seq!['i', 'n', 't', 'e', 'r', 'f', 'a', 'c', 'e'] ==> r == Some(
                ServiceQuery::Interface,
            ),
            query@ != seq!['p', 'i', 'd'] && query@ != seq!['i', 'n', 't', 'e', 'r', 'f', 'a', 'c', 'e']
                ==> r is None,
    {
        proof {
            reveal_strlit("pid");
            reveal_strlit("interface");
            assert("pid"@ =~= seq!['p', 'i', 'd']);
            assert("interface"@ =~= seq!['i', 'n', 't', 'e', 'r', 'f', 'a', 'c', 'e']);
        }
        if str_eq(query, "pid") {
            Some(ServiceQuery::Pid)
        } else if str_eq(query, "interface") {
            Some(ServiceQuery::Interface)
        } else {
            None
        }
    }
}

/// Answers `query` about the entry a lookup found.
pub fn query_service(entry: Option<Entry>, query: ServiceQuery) -> (r: Result<
    ServiceAnswer,
    RegistryError,
>)
    ensures
        match entry {
            None => r == Err::<ServiceAnswer, RegistryError>(RegistryError::NoService),
            Some(e) => match query {
                ServiceQuery::Pid => r matches Ok(ServiceAnswer::Pid(p)) && p@ == e@.desc.pid,
                ServiceQuery::Interface => r matches Ok(ServiceAnswer::Interface(i)) && vals_view(
                    i@,
                ) == e@.desc.details.interface,
            },
        },
{
    match entry {
        None => Err(RegistryError::NoService),
        Some(e) => match query {
            ServiceQuery::Pid => Ok(ServiceAnswer::Pid(e.pid())),
            ServiceQuery::Interface => Ok(ServiceAnswer::Interface(duplicate_vals(e.interface()))),
        },
    }
}

/// A checkpoint of this node's own registrations.
#[derive(Debug)]
pub struct Snapshot {
    pub revision: u64,
    pub services: Vec<ServiceDescription>,
}

/// The view of a list of descriptions.
pub open spec fn descs_view(v: Seq<ServiceDescription>) -> Seq<DescView> {
    v.map_values(|d: ServiceDescription| d@)
}

/// A change announced by another node.
#[derive(Debug)]
pub enum RemoteChange {
    Snapshot(Snapshot),
    Up(u64, ServiceDescription),
    Down(u64, String, ProcessId),
}

/// The revision a change carries.
pub open spec fn change_revision(c: &RemoteChange) -> u64 {
    match c {
        RemoteChange::Snapshot(s) => s.revision,
        RemoteChange::Up(r, _) => *r,
        RemoteChange::Down(r, _, _) => *r,
    }
}

/// The registry state.
pub struct Registry {
    node_name: String,
    entries: Vec<Entry>,
    observed: u64,
    local_revision: u64,
    remote_revisions: Vec<(String, u64)>,
}

pub struct RegistryView {
    pub node: Seq<char>,
    pub entries: Seq<EntryView>,
    pub observed: u64,
    pub local_revision: u64,
    pub revisions: Seq<(Seq<char>, u64)>,
}

/// The view of a list of entries.
pub open spec fn entries_view(v: Seq<Entry>) -> Seq<EntryView> {
    v.map_values(|e: Entry| e@)
}

/// The view of node revisions.
pub open spec fn revisions_view(v: Seq<(String, u64)>) -> Seq<(Seq<char>, u64)> {
    v.map_values(|p: (String, u64)| (p.0@, p.1))
}

impl View for Registry {
    type V = RegistryView;

    closed spec fn view(&self) -> RegistryView {
        RegistryView {
            node: self.node_name@,
            entries: entries_view(self.entries@),
            observed: self.observed,
            local_revision: self.local_revision,
            revisions: revisions_view(self.remote_revisions@),
        }
    }
}

/// Entries are in the order observed, and none is newer than the counter.
pub open spec fn entries_ordered(entries: Seq<EntryView>, observed: u64) -> bool {
    &&& forall|i: int, j: int|
        0 <= i < j < entries.len() ==> entries[i].observed < entries[j].observed
    &&& forall|i: int| 0 <= i < entries.len() ==> entries[i].observed <= observed
}

/// The last revision recorded for `node`.
pub open spec fn revision_of(revs: Seq<(Seq<char>, u64)>, node: Seq<char>) -> Option<u64>
    decreases revs.len(),
{
    if revs.len() == 0 {
        None
    } else if revs.last().0 == node {
        Some(revs.last().1)
    } else {
        revision_of(revs.drop_last(), node)
    }
}

/// The entry that answers for `name`: the one observed last.
pub open spec fn spec_select(entries: Seq<EntryView>, name: Seq<char>) -> Option<EntryView>
    decreases entries.len(),
{
    if entries.len() == 0 {
        None
    } else if entries.last().desc.name == name {
        Some(entries.last())
    } else {
        spec_select(entries.drop_last(), name)
    }
}

/// Which entries a retain pass keeps.
pub enum Keep {
    /// Drop entries named `name`.
    NotNamed(String),
    /// Drop local entries named `name`.
    NotLocalNamed(String),
    /// Drop entries named `name` learned from node `node`.
    NotRemoteNamedOn(String, String),
    /// Drop the entry for `name` and `pid` learned from node `node`.
    NotRemoteMatching(String, String, ProcessId),
    /// Drop every entry learned from node `node`.
    NotRemoteOn(String),
    /// Drop entries learned from node `node` that a snapshot no longer lists.
    ListedOrNotRemoteOn(String),
}

pub enum KeepView {
    NotNamed(Seq<char>),
    NotLocalNamed(Seq<char>),
    NotRemoteNamedOn(Seq<char>, Seq<char>),
    NotRemoteMatching(Seq<char>, Seq<char>, PidView),
    NotRemoteOn(Seq<char>),
    ListedOrNotRemoteOn(Seq<char>),
}

impl View for Keep {
    type V = KeepView;

    open spec fn view(&self) -> KeepView {
        match self {
            Keep::NotNamed(n) => KeepView::NotNamed(n@),
            Keep::NotLocalNamed(n) => KeepView::NotLocalNamed(n@),
            Keep::NotRemoteNamedOn(n, node) => KeepView::NotRemoteNamedOn(n@, node@),
            Keep::NotRemoteMatching(node, n, p) => KeepView::NotRemoteMatching(node@, n@, p@),
            Keep::NotRemoteOn(node) => KeepView::NotRemoteOn(node@),
            Keep::ListedOrNotRemoteOn(node) => KeepView::ListedOrNotRemoteOn(node@),
        }
    }
}

/// Whether a snapshot lists a service of this name and process.
pub open spec fn listed(services: Seq<DescView>, name: Seq<char>, pid: PidView) -> bool {
    exists|i: int| 0 <= i < services.len() && services[i].name == name && services[i].pid == pid
}

pub open spec fn keeps(k: KeepView, services: Seq<DescView>, e: EntryView) -> bool {
    match k {
        KeepView::NotNamed(n) => e.desc.name != n,
        KeepView::NotLocalNamed(n) => !(e.local && e.desc.name == n),
        KeepView::NotRemoteNamedOn(n, node) => !(e.desc.name == n && remote_on(e, node)),
        KeepView::NotRemoteMatching(node, n, p) => !(remote_on(e, node) && e.desc.name == n
            && e.desc.pid == p),
        KeepView::NotRemoteOn(node) => !remote_on(e, node),
        KeepView::ListedOrNotRemoteOn(node) => !remote_on(e, node) || listed(
            services,
            e.desc.name,
            e.desc.pid,
        ),
    }
}

pub open spec fn keep_pred(k: KeepView, services: Seq<DescView>) -> spec_fn(EntryView) -> bool {
    |e: EntryView| keeps(k, services, e)
}

/// The entries a retain pass keeps.
pub open spec fn retained(
    entries: Seq<EntryView>,
    k: KeepView,
    services: Seq<DescView>,
) -> Seq<EntryView> {
    entries.filter(keep_pred(k, services))
}

/// Whether the registry holds an entry of node `node` equal to `svc`.
pub open spec fn unchanged(entries: Seq<EntryView>, node: Seq<char>, svc: DescView) -> bool {
    exists|i: int| 0 <= i < entries.len() && remote_on(entries[i], node) && entries[i].desc == svc
}

/// The registry after learning of a remote service.
pub open spec fn spec_remote_up(s: RegistryView, svc: DescView) -> RegistryView {
    if svc.pid.node == s.node {
        s
    } else {
        RegistryView {
            entries: retained(
                s.entries,
                KeepView::NotRemoteNamedOn(svc.name, svc.pid.node),
                Seq::empty(),
            ).push(EntryView { desc: svc, local: false, observed: (s.observed + 1) as u64 }),
            observed: (s.observed + 1) as u64,
            ..s
        }
    }
}

/// One service of a snapshot from `node`: new or changed services are
/// learned; those already known as they are keep their place.
pub open spec fn snapshot_step(s: RegistryView, node: Seq<char>, svc: DescView) -> RegistryView {
    if svc.pid.node != node || unchanged(s.entries, node, svc) {
        s
    } else {
        spec_remote_up(s, svc)
    }
}

/// All services of a snapshot from `node`, in order.
pub open spec fn snapshot_fold(
    s: RegistryView,
    node: Seq<char>,
    services: Seq<DescView>,
) -> RegistryView
    decreases services.len(),
{
    if services.len() == 0 {
        s
    } else {
        snapshot_step(snapshot_fold(s, node, services.drop_last()), node, services.last())
    }
}

pub open spec fn other_node(node: Seq<char>) -> spec_fn((Seq<char>, u64)) -> bool {
    |p: (Seq<char>, u64)| p.0 != node
}

/// Records `rev` as the revision of `node`.
pub open spec fn set_revision(
    revs: Seq<(Seq<char>, u64)>,
    node: Seq<char>,
    rev: u64,
) -> Seq<(Seq<char>, u64)> {
    revs.filter(other_node(node)).push((node, rev))
}

/// Whether a change of revision `rev` from `node` is older than one applied.
pub open spec fn stale(s: RegistryView, node: Seq<char>, rev: u64) -> bool {
    match revision_of(s.revisions, node) {
        Some(old) => old >= rev,
        None => false,
    }
}

/// The counter can still number every entry that a snapshot may add.
pub open spec fn room_for(s: RegistryView, n: nat) -> bool {
    s.observed + n < u64::MAX
}

impl Registry {
    /// Entries stay ordered by observation.
    pub open spec fn wf(&self) -> bool {
        entries_ordered(self@.entries, self@.observed)
    }

    /// An empty registry for node `node_name`.
    pub fn new(node_name: &str) -> (r: Registry)
        ensures
            r.wf(),
            r@.node == node_name@,
            r@.entries.len() == 0,
            r@.observed == 0,
            r@.local_revision == 0,
            r@.revisions.len() == 0,
    {
        let r = Registry {
            node_name: String::from_str(node_name),
            entries: Vec::new(),
            observed: 0,
            local_revision: 0,
            remote_revisions: Vec::new(),
        };
        proof {
            assert(r@.entries =~= Seq::empty());
            assert(r@.revisions =~= Seq::empty());
        }
        r
    }

    /// The node this registry belongs to.
    pub fn node_name(&self) -> (r: &str)
        ensures
            r@ == self@.node,
    {
        self.node_name.as_str()
    }

    /// How many entries the registry holds, including overshadowed ones.
    pub fn len(&self) -> (r: usize)
        ensures
            r == self@.entries.len(),
    {
        self.entries.len()
    }

    /// The revision recorded for `node`, if any.
    pub fn revision(&self, node: &str) -> (r: Option<u64>)
        ensures
            r == revision_of(self@.revisions, node@),
    {
        let mut i: usize = self.remote_revisions.len();
        proof {
            assert(self@.revisions.take(i as int) =~= self@.revisions);
        }
        while i > 0
            invariant
                i <= self.remote_revisions.len(),
                revision_of(self@.revisions, node@) == revision_of(
                    self@.revisions.take(i as int),
                    node@,
                ),
            decreases i,
        {
            let p = &self.remote_revisions[i - 1];
            proof {
                let t = self@.revisions.take(i as int);
                assert(t.last() == (p.0@, p.1));
                assert(t.drop_last() =~= self@.revisions.take(i - 1));
            }
            if str_eq(p.0.as_str(), node) {
                return Some(p.1);
            }
            i = i - 1;
        }
        None
    }

    fn keep_exec(k: &Keep, services: &Vec<ServiceDescription>, e: &Entry) -> (r: bool)
        ensures
            r == keeps(k@, descs_view(services@), e@),
    {
        match k {
            Keep::NotNamed(n) => e.desc.name != *n,
            Keep::NotLocalNamed(n) => !(e.local && e.desc.name == *n),
            Keep::NotRemoteNamedOn(n, node) => !(e.desc.name == *n && !e.local && str_eq(e.desc.pid.node(), node.as_str())),
            Keep::NotRemoteMatching(node, n, p) => !(!e.local && str_eq(e.desc.pid.node(), node.as_str())
                && e.desc.name == *n && e.desc.pid.same(p)),
            Keep::NotRemoteOn(node) => !(!e.local && str_eq(e.desc.pid.node(), node.as_str())),
            Keep::ListedOrNotRemoteOn(node) => {
                if !(!e.local && str_eq(e.desc.pid.node(), node.as_str())) {
                    return true;
                }
                let mut i: usize = 0;
                while i < services.len()
                    invariant
                        k@ == KeepView::ListedOrNotRemoteOn(node@),
                        i <= services.len(),
                        forall|j: int|
                            0 <= j < i ==> !(services@[j]@.name == e@.desc.name
                                && services@[j]@.pid == e@.desc.pid),
                    decreases services.len() - i,
                {
                    if services[i].name == e.desc.name && services[i].pid.same(&e.desc.pid) {
                        proof {
                            let sv = descs_view(services@);
                            assert(sv[i as int] == services@[i as int]@);
                            assert(sv[i as int].name == e@.desc.name);
                            assert(sv[i as int].pid == e@.desc.pid);
                            assert(listed(sv, e@.desc.name, e@.desc.pid));
                        }
                        return true;
                    }
                    i = i + 1;
                }
                proof {
                    assert forall|j: int|
                        0 <= j < descs_view(services@).len() implies !(descs_view(
                            services@,
                        )[j].name == e@.desc.name && descs_view(services@)[j].pid
                            == e@.desc.pid) by {
                        assert(descs_view(services@)[j] == services@[j]@);
                    }
                }
                false
            },
        }
    }

    /// Keeps the entries that `k` keeps, in order.
    fn retain_entries(&mut self, k: &Keep, services: &Vec<ServiceDescription>)
        requires
            old(self).wf(),
        ensures
            final(self).wf(),
            final(self)@ == (RegistryView {
                entries: retained(old(self)@.entries, k@, descs_view(services@)),
                ..old(self)@
            }),
    {
        let kept = filter_entries(&self.entries, k, services, Ghost(self.observed));
        self.entries = kept;
    }
}

/// The entries of `v` that `k` keeps, in order.
fn filter_entries(
    v: &Vec<Entry>,
    k: &Keep,
    services: &Vec<ServiceDescription>,
    Ghost(bound): Ghost<u64>,
) -> (r: Vec<Entry>)
    requires
        entries_ordered(entries_view(v@), bound),
    ensures
        entries_view(r@) == retained(entries_view(v@), k@, descs_view(services@)),
        entries_ordered(entries_view(r@), bound),
{
        let ghost ov = entries_view(v@);
        let mut kept: Vec<Entry> = Vec::new();
        let mut i: usize = 0;
        while i < v.len()
            invariant
                ov == entries_view(v@),
                entries_ordered(ov, bound),
                i <= ov.len(),
                entries_view(kept@) =~= ov.take(i as int).filter(keep_pred(k@, descs_view(services@))),
                entries_ordered(entries_view(kept@), bound),
                i < ov.len() ==> forall|j: int|
                    0 <= j < kept@.len() ==> kept@[j]@.observed < ov[i as int].observed,
            decreases ov.len() - i,
        {
            let e = &v[i];
            let keep = Registry::keep_exec(k, services, e);
            let ghost before = entries_view(kept@);
            proof {
                assert(ov[i as int] == e@);
                reveal(Seq::filter);
                assert(ov.take(i + 1).drop_last() =~= ov.take(i as int));
                assert(ov.take(i + 1).last() == e@);
            }
            if keep {
                kept.push(e.duplicate());
                proof {
                    assert(entries_view(kept@) =~= before.push(e@));
                }
            } else {
                proof {
                    assert(entries_view(kept@) =~= before);
                }
            }
            proof {
                if i + 1 < ov.len() {
                    assert(ov[i as int].observed < ov[i + 1].observed);
                    assert forall|j: int| 0 <= j < kept@.len() implies kept@[j]@.observed < ov[i
                        + 1].observed by {
                        assert(entries_view(kept@)[j] == kept@[j]@);
                        if keep && j == kept@.len() - 1 {
                            assert(kept@[j]@ == e@);
                        } else {
                            assert(kept@[j]@ == before[j]);
                        }
                    }
                }
                assert forall|a: int, b: int|
                    0 <= a < b < entries_view(kept@).len() implies entries_view(kept@)[a].observed
                    < entries_view(kept@)[b].observed by {
                    if keep && b == kept@.len() - 1 {
                        assert(entries_view(kept@)[a] == before[a]);
                        assert(before[a] == kept@[a]@);
                    } else {
                        assert(entries_view(kept@)[a] == before[a]);
                        assert(entries_view(kept@)[b] == before[b]);
                    }
                }
            }
            i = i + 1;
        }
        proof {
            assert(ov.take(ov.len() as int) =~= ov);
        }
        kept
}



/// Some local entry is registered under `name`.
pub open spec fn exists_local(entries: Seq<EntryView>, name: Seq<char>) -> bool {
    exists|i: int| 0 <= i < entries.len() && entries[i].local && entries[i].desc.name == name
}

/// One entry per service name, the one observed last, in observation order.
pub open spec fn spec_all(entries: Seq<EntryView>) -> Seq<EntryView>
    decreases entries.len(),
{
    if entries.len() == 0 {
        Seq::empty()
    } else {
        retained(
            spec_all(entries.drop_last()),
            KeepView::NotNamed(entries.last().desc.name),
            Seq::empty(),
        ).push(entries.last())
    }
}

/// Index of the entry named `name` observed as `observed`, or -1.
pub open spec fn find_observed(entries: Seq<EntryView>, name: Seq<char>, observed: u64) -> int
    decreases entries.len(),
{
    if entries.len() == 0 {
        -1
    } else if entries.last().desc.name == name && entries.last().observed == observed {
        entries.len() - 1
    } else {
        find_observed(entries.drop_last(), name, observed)
    }
}

pub open spec fn opt_entry_view(e: Option<Entry>) -> Option<EntryView> {
    match e {
        Some(e) => Some(e@),
        None => None,
    }
}

proof fn lemma_find_observed(entries: Seq<EntryView>, name: Seq<char>, observed: u64)
    ensures
        -1 <= find_observed(entries, name, observed) < entries.len(),
        find_observed(entries, name, observed) >= 0 ==> entries[find_observed(entries, name, observed)].desc.name == name
            && entries[find_observed(entries, name, observed)].observed == observed,
        find_observed(entries, name, observed) < 0 ==> forall|i: int|
            0 <= i < entries.len() ==> !(entries[i].desc.name == name && entries[i].observed
                == observed),
    decreases entries.len(),
{
    if entries.len() > 0 {
        lemma_find_observed(entries.drop_last(), name, observed);
        if !(entries.last().desc.name == name && entries.last().observed == observed) {
            assert forall|i: int| 0 <= i < entries.len() - 1 implies entries[i] == entries.drop_last()[i] by {}
        }
    }
}

proof fn lemma_ordered_remove(entries: Seq<EntryView>, bound: u64, idx: int)
    requires
        entries_ordered(entries, bound),
        0 <= idx < entries.len(),
    ensures
        entries_ordered(entries.remove(idx), bound),
{
    let r = entries.remove(idx);
    assert forall|i: int, j: int| 0 <= i < j < r.len() implies r[i].observed < r[j].observed by {
        let oi = if i < idx { i } else { i + 1 };
        let oj = if j < idx { j } else { j + 1 };
        assert(r[i] == entries[oi]);
        assert(r[j] == entries[oj]);
    }
    assert forall|i: int| 0 <= i < r.len() implies r[i].observed <= bound by {
        let oi = if i < idx { i } else { i + 1 };
        assert(r[i] == entries[oi]);
    }
}

/// Whether every item of `interface` is plain data.
pub fn interface_data(interface: &Vec<Val>) -> (r: bool)
    ensures
        r == interface_is_data(vals_view(interface@)),
{
    proof {
        lemma_vals_view(interface@);
    }
    let mut i: usize = 0;
    while i < interface.len()
        invariant
            i <= interface.len(),
            vals_view(interface@).len() == interface.len(),
            forall|k: int| 0 <= k < interface.len() ==> vals_view(interface@)[k] == (#[trigger] interface@[k])@,
            forall|k: int| 0 <= k < i ==> form_like(#[trigger] vals_view(interface@)[k]),
        decreases interface.len() - i,
    {
        if !is_form_like(&interface[i]) {
            return false;
        }
        i = i + 1;
    }
    true
}

/// An interface that is plain data throughout, so that it can be written
/// as source forms for other nodes.
pub open spec fn interface_is_data(interface: Seq<ValView>) -> bool {
    forall|i: int| 0 <= i < interface.len() ==> form_like(#[trigger] interface[i])
}

/// Whether the interface of every local entry is plain data.
pub open spec fn local_interfaces_data(entries: Seq<EntryView>) -> bool {
    forall|i: int|
        0 <= i < entries.len() && (#[trigger] entries[i]).local ==> interface_is_data(
            entries[i].desc.details.interface,
        )
}

/// What registering `reg` for process `pid` answers and leaves.
pub open spec fn register_post(
    old: RegistryView,
    reg: RegistrationView,
    pid: PidView,
    r: Result<(Option<RegistryEvent>, EntryId), RegistryError>,
    new: RegistryView,
) -> bool {
    if exists_local(old.entries, reg.keyword) && !reg.overwrite {
        &&& r matches Err(RegistryError::Exists(k)) && k@ == reg.keyword
        &&& new == old
    } else {
        let desc = DescView { name: reg.keyword, pid: pid, details: reg.details };
        let base = if reg.overwrite {
            retained(old.entries, KeepView::NotLocalNamed(reg.keyword), Seq::empty())
        } else {
            old.entries
        };
        &&& r matches Ok((ev, id)) && id.0 == old.observed + 1 && if interface_is_data(
            reg.details.interface,
        ) {
            ev matches Some(e) && e@ == (EventView::Up {
                revision: (old.local_revision + 1) as u64,
                service: desc,
            })
        } else {
            ev is None
        }
        &&& new == (RegistryView {
            entries: base.push(
                EntryView { desc, local: true, observed: (old.observed + 1) as u64 },
            ),
            observed: (old.observed + 1) as u64,
            local_revision: (old.local_revision + 1) as u64,
            ..old
        })
    }
}

/// What the end of entry `observed` under `name` answers and leaves.
pub open spec fn exit_post(
    old: RegistryView,
    name: Seq<char>,
    observed: u64,
    r: Option<RegistryEvent>,
    new: RegistryView,
) -> bool {
    let idx = find_observed(old.entries, name, observed);
    if idx >= 0 {
        &&& r matches Some(ev) && ev@ == (EventView::Down {
            revision: (old.local_revision + 1) as u64,
            name: name,
            pid: old.entries[idx].desc.pid,
        })
        &&& new == (RegistryView {
            entries: old.entries.remove(idx),
            local_revision: (old.local_revision + 1) as u64,
            ..old
        })
    } else {
        r is None && new == old
    }
}

impl Registry {
    /// The entry that answers for `keyword`: of all entries registered
    /// under it, here or on linked nodes, the one observed last.
    pub fn lookup(&self, keyword: &str) -> (r: Option<Entry>)
        ensures
            opt_entry_view(r) == spec_select(self@.entries, keyword@),
    {
        let mut i: usize = self.entries.len();
        proof {
            assert(self@.entries.take(i as int) =~= self@.entries);
        }
        while i > 0
            invariant
                i <= self.entries.len(),
                spec_select(self@.entries, keyword@) == spec_select(
                    self@.entries.take(i as int),
                    keyword@,
                ),
            decreases i,
        {
            let e = &self.entries[i - 1];
            proof {
                let t = self@.entries.take(i as int);
                assert(t.last() == e@);
                assert(t.drop_last() =~= self@.entries.take(i - 1));
            }
            if str_eq(e.desc.name.as_str(), keyword) {
                return Some(e.duplicate());
            }
            i = i - 1;
        }
        None
    }

    /// Whether a wait for service `name` (of process `pid`, where given)
    /// is over: the process registered under the name, once it is there
    /// and is the one waited for; `None` while the wait goes on.
    pub fn wait_answer(&self, name: &str, pid: Option<&ProcessId>) -> (r: Option<ProcessId>)
        ensures
            match spec_select(self@.entries, name@) {
                Some(e) => if pid matches Some(p) && p@ != e.desc.pid {
                    r is None
                } else {
                    r matches Some(found) && found@ == e.desc.pid
                },
                None => r is None,
            },
    {
        match self.lookup(name) {
            Some(entry) => {
                let found = entry.pid();
                match pid {
                    Some(p) => if p.same(&found) {
                        Some(found)
                    } else {
                        None
                    },
                    None => Some(found),
                }
            },
            None => None,
        }
    }

    /// For every registered name, the entry that answers for it.
    pub fn all(&self) -> (r: Vec<Entry>)
        requires
            self.wf(),
        ensures
            entries_view(r@) == spec_all(self@.entries),
    {
        let mut r: Vec<Entry> = Vec::new();
        let mut i: usize = 0;
        let empty: Vec<ServiceDescription> = Vec::new();
        proof {
            assert(descs_view(empty@) =~= Seq::<DescView>::empty());
        }
        while i < self.entries.len()
            invariant
                self.wf(),
                i <= self.entries.len(),
                descs_view(empty@) =~= Seq::<DescView>::empty(),
                entries_view(r@) == spec_all(self@.entries.take(i as int)),
                entries_ordered(entries_view(r@), self.observed),
                i < self.entries.len() ==> forall|j: int|
                    0 <= j < r@.len() ==> r@[j]@.observed < self@.entries[i as int].observed,
            decreases self.entries.len() - i,
        {
            let e = &self.entries[i];
            let name = String::from_str(e.desc.name.as_str());
            let mut kept = filter_entries(&r, &Keep::NotNamed(name), &empty, Ghost(self.observed));
            let ghost before = entries_view(kept@);
            proof {
                assert(self@.entries.take(i + 1).drop_last() =~= self@.entries.take(i as int));
                assert(self@.entries.take(i + 1).last() == e@);
                assert(self@.entries[i as int] == e@);
                // what the filter keeps is older than the entry observed now
                assert forall|j: int| 0 <= j < before.len() implies before[j].observed
                    < e@.observed by {
                    let kp = keep_pred(KeepView::NotNamed(e@.desc.name), Seq::empty());
                    assert(entries_view(r@).filter(kp).contains(before[j]));
                    entries_view(r@).lemma_filter_contains_rev(kp, before[j]);
                    let w = choose|w: int| 0 <= w < entries_view(r@).len() && entries_view(r@)[w] == before[j];
                    assert(r@[w]@ == entries_view(r@)[w]);
                }
            }
            kept.push(e.duplicate());
            proof {
                assert(entries_view(kept@) =~= before.push(e@));
                assert forall|a: int, b: int|
                    0 <= a < b < entries_view(kept@).len() implies entries_view(kept@)[a].observed
                    < entries_view(kept@)[b].observed by {
                    assert(entries_view(kept@)[a] == before[a]);
                    if b < before.len() {
                        assert(entries_view(kept@)[b] == before[b]);
                    }
                }
                if i + 1 < self.entries.len() {
                    assert(self@.entries[i as int].observed < self@.entries[i + 1].observed);
                    assert forall|j: int| 0 <= j < kept@.len() implies kept@[j]@.observed
                        < self@.entries[i + 1].observed by {
                        assert(entries_view(kept@)[j] == kept@[j]@);
                    }
                }
            }
            r = kept;
            i = i + 1;
        }
        proof {
            assert(self@.entries.take(self.entries.len() as int) =~= self@.entries);
        }
        r
    }

    /// Registers process `pid` under the registration's name. A name held by
    /// a local process is refused unless the registration overwrites, which
    /// replaces the local holders. Answers with the announcement to other
    /// nodes (none when the interface holds a value that is not plain data)
    /// and the observation number that identifies the new entry.
    pub fn register(&mut self, registration: Registration, pid: ProcessId) -> (r: Result<
        (Option<RegistryEvent>, EntryId),
        RegistryError,
    >)
        requires
            old(self).wf(),
            old(self)@.observed < u64::MAX,
            old(self)@.local_revision < u64::MAX,
        ensures
            final(self).wf(),
            register_post(old(self)@, registration@, pid@, r, final(self)@),
    {
        let Registration { keyword, details, overwrite } = registration;
        let mut existing_local = false;
        let mut i: usize = 0;
        while i < self.entries.len()
            invariant
                i <= self.entries.len(),
                existing_local == exists|j: int|
                    0 <= j < i && self@.entries[j].local && self@.entries[j].desc.name == keyword@,
            decreases self.entries.len() - i,
        {
            let e = &self.entries[i];
            proof {
                assert(self@.entries[i as int] == e@);
            }
            if e.local && e.desc.name == keyword {
                existing_local = true;
            }
            i = i + 1;
        }
        if existing_local && !overwrite {
            return Err(RegistryError::Exists(keyword));
        }
        if overwrite {
            let empty: Vec<ServiceDescription> = Vec::new();
            proof {
                assert(descs_view(empty@) =~= Seq::<DescView>::empty());
            }
            self.retain_entries(&Keep::NotLocalNamed(keyword.clone()), &empty);
        }
        let ghost base = self@.entries;
        let observed = self.observed.wrapping_add(1);
        self.observed = observed;
        self.local_revision = self.local_revision + 1;
        let desc = ServiceDescription { name: keyword, pid, details };
        let event = if interface_data(&desc.details.interface) {
            Some(RegistryEvent::Up { revision: self.local_revision, service: desc.duplicate() })
        } else {
            None
        };
        self.entries.push(Entry { desc, local: true, observed });
        proof {
            assert(entries_view(self.entries@) =~= base.push(self.entries@.last()@));
        }
        Ok((event, EntryId(observed)))
    }

    /// The registered process of entry `observed` under `keyword` ended:
    /// drops the entry and answers with the announcement of its end, or
    /// `None` when no such entry remains.
    pub fn notify_exit(&mut self, keyword: &str, id: EntryId) -> (r: Option<RegistryEvent>)
        requires
            old(self).wf(),
            old(self)@.local_revision < u64::MAX,
        ensures
            final(self).wf(),
            exit_post(old(self)@, keyword@, id.0, r, final(self)@),
    {
        let observed = id.0;
        let mut i: usize = self.entries.len();
        proof {
            assert(self@.entries.take(i as int) =~= self@.entries);
        }
        while i > 0
            invariant
                observed == id.0,
                self@ == old(self)@,
                self.wf(),
                self@.local_revision < u64::MAX,
                i <= self.entries.len(),
                find_observed(self@.entries, keyword@, observed) == find_observed(
                    self@.entries.take(i as int),
                    keyword@,
                    observed,
                ),
            decreases i,
        {
            let e = &self.entries[i - 1];
            proof {
                let t = self@.entries.take(i as int);
                assert(t.last() == e@);
                assert(t.drop_last() =~= self@.entries.take(i - 1));
            }
            if e.observed == observed && str_eq(e.desc.name.as_str(), keyword) {
                let ghost before = self@;
                let removed = self.entries.remove(i - 1);
                self.local_revision = self.local_revision + 1;
                proof {
                    assert(entries_view(self.entries@) =~= before.entries.remove(i - 1));
                    lemma_ordered_remove(before.entries, before.observed, i - 1);
                }
                return Some(
                    RegistryEvent::Down {
                        revision: self.local_revision,
                        name: String::from_str(keyword),
                        pid: removed.desc.pid,
                    },
                );
            }
            i = i - 1;
        }
        None
    }
}


/// The abstract value of a [RemoteChange].
pub enum ChangeView {
    Snapshot(u64, Seq<DescView>),
    Up(u64, DescView),
    Down(u64, Seq<char>, PidView),
}

impl View for RemoteChange {
    type V = ChangeView;

    open spec fn view(&self) -> ChangeView {
        match self {
            RemoteChange::Snapshot(s) => ChangeView::Snapshot(s.revision, descs_view(s.services@)),
            RemoteChange::Up(r, d) => ChangeView::Up(*r, d@),
            RemoteChange::Down(r, n, p) => ChangeView::Down(*r, n@, p@),
        }
    }
}

pub open spec fn change_rev(c: ChangeView) -> u64 {
    match c {
        ChangeView::Snapshot(r, _) => r,
        ChangeView::Up(r, _) => r,
        ChangeView::Down(r, _, _) => r,
    }
}

/// How many entries a change may add.
pub open spec fn change_additions(c: ChangeView) -> nat {
    match c {
        ChangeView::Snapshot(_, svcs) => svcs.len(),
        ChangeView::Up(_, _) => 1,
        ChangeView::Down(_, _, _) => 0,
    }
}

/// The registry after a change from `node`, and whether it was accepted.
/// Changes no newer than the last applied one from `node` are accepted and
/// change nothing; a node may only announce its own services.
pub open spec fn spec_apply(s: RegistryView, node: Seq<char>, c: ChangeView) -> (RegistryView, bool) {
    if stale(s, node, change_rev(c)) {
        (s, true)
    } else {
        match c {
            ChangeView::Snapshot(rev, svcs) => {
                let s1 = RegistryView {
                    entries: retained(s.entries, KeepView::ListedOrNotRemoteOn(node), svcs),
                    ..s
                };
                let s2 = snapshot_fold(s1, node, svcs);
                (RegistryView { revisions: set_revision(s2.revisions, node, rev), ..s2 }, true)
            },
            ChangeView::Up(rev, svc) => {
                if svc.pid.node != node {
                    (s, false)
                } else {
                    let s2 = spec_remote_up(s, svc);
                    (RegistryView { revisions: set_revision(s2.revisions, node, rev), ..s2 }, true)
                }
            },
            ChangeView::Down(rev, name, pid) => (
                RegistryView {
                    entries: retained(
                        s.entries,
                        KeepView::NotRemoteMatching(node, name, pid),
                        Seq::empty(),
                    ),
                    revisions: set_revision(s.revisions, node, rev),
                    ..s
                },
                true,
            ),
        }
    }
}

/// The descriptions of the local entries, in observation order.
pub open spec fn local_descs(entries: Seq<EntryView>) -> Seq<DescView>
    decreases entries.len(),
{
    if entries.len() == 0 {
        Seq::empty()
    } else if entries.last().local {
        local_descs(entries.drop_last()).push(entries.last().desc)
    } else {
        local_descs(entries.drop_last())
    }
}

proof fn lemma_fold_bounds(s: RegistryView, node: Seq<char>, svcs: Seq<DescView>)
    requires
        entries_ordered(s.entries, s.observed),
        s.observed + svcs.len() < u64::MAX,
    ensures
        entries_ordered(snapshot_fold(s, node, svcs).entries, snapshot_fold(s, node, svcs).observed),
        snapshot_fold(s, node, svcs).observed <= s.observed + svcs.len(),
        snapshot_fold(s, node, svcs).node == s.node,
        snapshot_fold(s, node, svcs).revisions == s.revisions,
        snapshot_fold(s, node, svcs).local_revision == s.local_revision,
    decreases svcs.len(),
{
    if svcs.len() > 0 {
        lemma_fold_bounds(s, node, svcs.drop_last());
        let p = snapshot_fold(s, node, svcs.drop_last());
        let svc = svcs.last();
        if !(svc.pid.node != node || unchanged(p.entries, node, svc)) && svc.pid.node != p.node {
            lemma_retained_ordered(
                p.entries,
                p.observed,
                KeepView::NotRemoteNamedOn(svc.name, svc.pid.node),
                Seq::empty(),
            );
            lemma_push_ordered(
                retained(p.entries, KeepView::NotRemoteNamedOn(svc.name, svc.pid.node), Seq::empty()),
                p.observed,
                EntryView { desc: svc, local: false, observed: (p.observed + 1) as u64 },
            );
        }
    }
}

/// Filtering keeps entries ordered.
pub proof fn lemma_retained_ordered(
    entries: Seq<EntryView>,
    bound: u64,
    k: KeepView,
    services: Seq<DescView>,
)
    requires
        entries_ordered(entries, bound),
    ensures
        entries_ordered(retained(entries, k, services), bound),
    decreases entries.len(),
{
    reveal(Seq::filter);
    if entries.len() > 0 {
        let rest = entries.drop_last();
        assert(entries_ordered(rest, bound)) by {
            assert forall|i: int, j: int| 0 <= i < j < rest.len() implies rest[i].observed
                < rest[j].observed by {
                assert(rest[i] == entries[i] && rest[j] == entries[j]);
            }
            assert forall|i: int| 0 <= i < rest.len() implies rest[i].observed <= bound by {
                assert(rest[i] == entries[i]);
            }
        }
        lemma_retained_ordered(rest, bound, k, services);
        let f = retained(rest, k, services);
        if keep_pred(k, services)(entries.last()) {
            assert forall|j: int| 0 <= j < f.len() implies f[j].observed < entries.last().observed by {
                assert(rest.filter(keep_pred(k, services)).contains(f[j]));
                rest.lemma_filter_contains_rev(keep_pred(k, services), f[j]);
                let w = choose|w: int| 0 <= w < rest.len() && rest[w] == f[j];
                assert(entries[w] == rest[w]);
            }
            let g = f.push(entries.last());
            assert(g == retained(entries, k, services));
            assert forall|i: int, j: int| 0 <= i < j < g.len() implies g[i].observed
                < g[j].observed by {
                assert(g[i] == f[i]);
                if j < f.len() {
                    assert(g[j] == f[j]);
                }
            }
        }
    }
}

/// Appending a newer entry keeps entries ordered.
pub proof fn lemma_push_ordered(entries: Seq<EntryView>, bound: u64, e: EntryView)
    requires
        entries_ordered(entries, bound),
        e.observed == bound + 1,
        bound < u64::MAX,
    ensures
        entries_ordered(entries.push(e), (bound + 1) as u64),
{
    let g = entries.push(e);
    assert forall|i: int, j: int| 0 <= i < j < g.len() implies g[i].observed < g[j].observed by {
        assert(g[i] == entries[i]);
        if j < entries.len() {
            assert(g[j] == entries[j]);
        }
    }
    assert forall|i: int| 0 <= i < g.len() implies g[i].observed <= bound + 1 by {
        if i < entries.len() {
            assert(g[i] == entries[i]);
        }
    }
}

impl Registry {
    /// Learns of a service that another node announced. Announcements of
    /// this node's own services are ignored; a node's new announcement for a
    /// name replaces its earlier one.
    pub fn remote_up(&mut self, service: ServiceDescription)
        requires
            old(self).wf(),
            old(self)@.observed < u64::MAX,
        ensures
            final(self).wf(),
            final(self)@ == spec_remote_up(old(self)@, service@),
    {
        if str_eq(service.pid.node(), self.node_name.as_str()) {
            return;
        }
        let empty: Vec<ServiceDescription> = Vec::new();
        proof {
            assert(descs_view(empty@) =~= Seq::<DescView>::empty());
        }
        let node = String::from_str(service.pid.node());
        self.retain_entries(&Keep::NotRemoteNamedOn(service.name.clone(), node), &empty);
        let ghost base = self@.entries;
        let observed = self.observed.wrapping_add(1);
        self.observed = observed;
        self.entries.push(Entry { desc: service, local: false, observed });
        proof {
            assert(entries_view(self.entries@) =~= base.push(self.entries@.last()@));
            lemma_push_ordered(base, old(self)@.observed, self.entries@.last()@);
        }
    }

    /// Forgets the service `name` of process `pid` that node `node` had.
    pub fn remove_remote(&mut self, node: &str, name: &str, pid: &ProcessId)
        requires
            old(self).wf(),
        ensures
            final(self).wf(),
            final(self)@ == (RegistryView {
                entries: retained(
                    old(self)@.entries,
                    KeepView::NotRemoteMatching(node@, name@, pid@),
                    Seq::empty(),
                ),
                ..old(self)@
            }),
    {
        let empty: Vec<ServiceDescription> = Vec::new();
        proof {
            assert(descs_view(empty@) =~= Seq::<DescView>::empty());
        }
        self.retain_entries(
            &Keep::NotRemoteMatching(String::from_str(node), String::from_str(name), pid.duplicate()),
            &empty,
        );
    }

    /// Forgets the revision recorded for `node`.
    fn drop_revision(&mut self, node: &str)
        requires
            old(self).wf(),
        ensures
            final(self).wf(),
            final(self)@ == (RegistryView {
                revisions: old(self)@.revisions.filter(other_node(node@)),
                ..old(self)@
            }),
    {
        let ghost ov = self@.revisions;
        let mut kept: Vec<(String, u64)> = Vec::new();
        let mut i: usize = 0;
        while i < self.remote_revisions.len()
            invariant
                self@ == old(self)@,
                ov == self@.revisions,
                i <= ov.len(),
                revisions_view(kept@) =~= ov.take(i as int).filter(other_node(node@)),
            decreases ov.len() - i,
        {
            let p = &self.remote_revisions[i];
            proof {
                assert(ov[i as int] == (p.0@, p.1));
                reveal(Seq::filter);
                assert(ov.take(i + 1).drop_last() =~= ov.take(i as int));
                assert(ov.take(i + 1).last() == ov[i as int]);
            }
            let ghost before = revisions_view(kept@);
            if !str_eq(p.0.as_str(), node) {
                kept.push((p.0.clone(), p.1));
                proof {
                    assert(revisions_view(kept@) =~= before.push(ov[i as int]));
                }
            }
            i = i + 1;
        }
        proof {
            assert(ov.take(ov.len() as int) =~= ov);
        }
        self.remote_revisions = kept;
    }

    /// Records `rev` as the latest revision applied from `node`.
    fn set_revision(&mut self, node: &str, rev: u64)
        requires
            old(self).wf(),
        ensures
            final(self).wf(),
            final(self)@ == (RegistryView {
                revisions: set_revision(old(self)@.revisions, node@, rev),
                ..old(self)@
            }),
    {
        self.drop_revision(node);
        let ghost base = self@.revisions;
        self.remote_revisions.push((String::from_str(node), rev));
        proof {
            assert(revisions_view(self.remote_revisions@) =~= base.push((node@, rev)));
        }
    }

    /// Forgets everything learned from `node`: its services and its revision,
    /// so that a new link to it starts afresh.
    pub fn remove_node(&mut self, node: &str)
        requires
            old(self).wf(),
        ensures
            final(self).wf(),
            final(self)@ == (RegistryView {
                entries: retained(old(self)@.entries, KeepView::NotRemoteOn(node@), Seq::empty()),
                revisions: old(self)@.revisions.filter(other_node(node@)),
                ..old(self)@
            }),
    {
        self.drop_revision(node);
        let empty: Vec<ServiceDescription> = Vec::new();
        proof {
            assert(descs_view(empty@) =~= Seq::<DescView>::empty());
        }
        self.retain_entries(&Keep::NotRemoteOn(String::from_str(node)), &empty);
    }

    /// Whether an entry learned from `node` is exactly `svc`.
    fn has_unchanged(&self, node: &str, svc: &ServiceDescription) -> (r: bool)
        ensures
            r == unchanged(self@.entries, node@, svc@),
    {
        let mut i: usize = 0;
        while i < self.entries.len()
            invariant
                i <= self.entries.len(),
                forall|j: int|
                    0 <= j < i ==> !(remote_on(self@.entries[j], node@) && self@.entries[j].desc
                        == svc@),
            decreases self.entries.len() - i,
        {
            let e = &self.entries[i];
            proof {
                assert(self@.entries[i as int] == e@);
            }
            if !e.local && str_eq(e.desc.pid.node(), node) && e.desc.name == svc.name
                && e.desc.pid.same(&svc.pid) && e.desc.details.same(&svc.details) {
                return true;
            }
            i = i + 1;
        }
        false
    }

    /// Applies a change that node `node` announced; see [spec_apply].
    pub fn apply_remote_change(&mut self, node: &str, change: RemoteChange) -> (r: Result<
        (),
        RegistryError,
    >)
        requires
            old(self).wf(),
            !stale(old(self)@, node@, change_rev(change@)) ==> old(self)@.observed
                + change_additions(change@) < u64::MAX,
        ensures
            final(self).wf(),
            (final(self)@, r is Ok) == spec_apply(old(self)@, node@, change@),
            r is Err ==> r == Err::<(), RegistryError>(RegistryError::ForeignService),
    {
        let rev = match &change {
            RemoteChange::Snapshot(s) => s.revision,
            RemoteChange::Up(r, _) => *r,
            RemoteChange::Down(r, _, _) => *r,
        };
        if let Some(old_rev) = self.revision(node) {
            if old_rev >= rev {
                return Ok(());
            }
        }
        match change {
            RemoteChange::Snapshot(snapshot) => {
                let Snapshot { revision, services } = snapshot;
                self.retain_entries(&Keep::ListedOrNotRemoteOn(String::from_str(node)), &services);
                let ghost s1 = self@;
                let ghost sv = descs_view(services@);
                let mut i: usize = 0;
                while i < services.len()
                    invariant
                        sv == descs_view(services@),
                        i <= services.len(),
                        entries_ordered(s1.entries, s1.observed),
                        s1.observed + sv.len() < u64::MAX,
                        self.wf(),
                        self@ == snapshot_fold(s1, node@, sv.take(i as int)),
                        self@.observed <= s1.observed + i,
                    decreases services.len() - i,
                {
                    let svc = &services[i];
                    proof {
                        assert(sv.take(i + 1).drop_last() =~= sv.take(i as int));
                        assert(sv.take(i + 1).last() == svc@);
                    }
                    if str_eq(svc.pid.node(), node) && !self.has_unchanged(node, svc) {
                        self.remote_up(svc.duplicate());
                    }
                    i = i + 1;
                }
                proof {
                    assert(sv.take(sv.len() as int) =~= sv);
                }
                self.set_revision(node, revision);
                Ok(())
            },
            RemoteChange::Up(revision, service) => {
                if !str_eq(service.pid.node(), node) {
                    return Err(RegistryError::ForeignService);
                }
                self.remote_up(service);
                self.set_revision(node, revision);
                Ok(())
            },
            RemoteChange::Down(revision, name, pid) => {
                self.remove_remote(node, name.as_str(), &pid);
                self.set_revision(node, revision);
                Ok(())
            },
        }
    }

    /// This node's own registrations, in the order registered, with the
    /// revision they correspond to; `None` when a local interface holds a
    /// value that is not plain data and so cannot be described.
    pub fn checkpoint(&self) -> (r: Option<Snapshot>)
        ensures
            r is Some == local_interfaces_data(self@.entries),
            r matches Some(snap) ==> snap.revision == self@.local_revision && descs_view(
                snap.services@,
            ) == local_descs(self@.entries),
    {
        let mut services: Vec<ServiceDescription> = Vec::new();
        let mut i: usize = 0;
        while i < self.entries.len()
            invariant
                i <= self.entries.len(),
                descs_view(services@) =~= local_descs(self@.entries.take(i as int)),
                forall|k: int|
                    0 <= k < i && (#[trigger] self@.entries[k]).local ==> interface_is_data(
                        self@.entries[k].desc.details.interface,
                    ),
            decreases self.entries.len() - i,
        {
            let e = &self.entries[i];
            proof {
                assert(self@.entries.take(i + 1).drop_last() =~= self@.entries.take(i as int));
                assert(self@.entries.take(i + 1).last() == e@);
                assert(self@.entries[i as int] == e@);
            }
            let ghost before = descs_view(services@);
            if e.local {
                if !interface_data(&e.desc.details.interface) {
                    return None;
                }
                services.push(e.description());
                proof {
                    assert(descs_view(services@) =~= before.push(e@.desc));
                }
            }
            i = i + 1;
        }
        proof {
            assert(self@.entries.take(self.entries.len() as int) =~= self@.entries);
        }
        Some(Snapshot { revision: self.local_revision, services })
    }
}


/// A request to the registry.
#[derive(Debug)]
pub enum RegistryCmd {
    /// This node's registrations and their revision.
    Checkpoint,
    /// A change from a linked node; `caller_waiting` is false when whoever
    /// asked has stopped waiting for the answer.
    ApplyRemote { node: String, change: RemoteChange, caller_waiting: bool },
    /// Register a local process.
    Register(Registration, ProcessId),
    /// The entry that answers for a name.
    Lookup(String),
    /// A registered local process ended.
    NotifyExit(String, EntryId),
    /// The answering entry of every name.
    GetAll,
    /// A linked node announced a service.
    RemoteUp(ServiceDescription),
    /// A linked node withdrew a service.
    RemoteDown { node: String, name: String, pid: ProcessId },
    /// A node link went away.
    RemoveNode(String),
}

/// The registry's answer to a [RegistryCmd].
#[derive(Debug)]
pub enum RegistryReply {
    Checkpoint(Option<Snapshot>),
    /// `None` when the change was dropped because nobody waits for it.
    Applied(Option<Result<(), RegistryError>>),
    Registered(Result<(Option<RegistryEvent>, EntryId), RegistryError>),
    Found(Option<Entry>),
    Exited(Option<RegistryEvent>),
    All(Vec<Entry>),
    Done,
}

/// How many entries a command may add.
pub open spec fn cmd_additions(cmd: &RegistryCmd) -> nat {
    match cmd {
        RegistryCmd::ApplyRemote { change, .. } => change_additions(change@),
        RegistryCmd::Register(..) => 1,
        RegistryCmd::RemoteUp(..) => 1,
        _ => 0,
    }
}

/// Whether a command may change the registry (and so wakes those waiting
/// for a change).
pub fn changes_registry(cmd: &RegistryCmd) -> (r: bool)
    ensures
        r == !(cmd is Lookup || cmd is GetAll || cmd is Checkpoint),
{
    match cmd {
        RegistryCmd::Lookup(..) | RegistryCmd::GetAll | RegistryCmd::Checkpoint => false,
        _ => true,
    }
}

impl Registry {
    /// Whether the registry's counters leave room to handle `cmd`: the
    /// observation counter can number every entry it may add, and the local
    /// revision can advance.
    pub fn has_room_for(&self, cmd: &RegistryCmd) -> (r: bool)
        ensures
            r == (self@.observed + cmd_additions(cmd) < u64::MAX && self@.local_revision
                < u64::MAX),
    {
        let additions: u64 = match cmd {
            RegistryCmd::ApplyRemote { change, .. } => match change {
                RemoteChange::Snapshot(s) => {
                    if s.services.len() as u64 >= u64::MAX {
                        return false;
                    }
                    s.services.len() as u64
                },
                RemoteChange::Up(..) => 1,
                RemoteChange::Down(..) => 0,
            },
            RegistryCmd::Register(..) => 1,
            RegistryCmd::RemoteUp(..) => 1,
            _ => 0,
        };
        self.observed < u64::MAX - additions && self.local_revision < u64::MAX
    }

    /// Answers one command. Handling never waits on anything: the caller
    /// performs the announcements and answers that the reply carries.
    pub fn handle_cmd(&mut self, cmd: RegistryCmd) -> (r: RegistryReply)
        requires
            old(self).wf(),
            old(self)@.observed + cmd_additions(&cmd) < u64::MAX,
            old(self)@.local_revision < u64::MAX,
        ensures
            final(self).wf(),
            numbered_step(old(self)@, final(self)@),
            match cmd {
                RegistryCmd::Checkpoint => r matches RegistryReply::Checkpoint(snap)
                    && (snap is Some == local_interfaces_data(old(self)@.entries)) && (snap matches Some(
                    c) ==> c.revision == old(self)@.local_revision && descs_view(c.services@)
                    == local_descs(old(self)@.entries)) && final(self)@ == old(self)@,
                RegistryCmd::ApplyRemote { node, change, caller_waiting } => if caller_waiting {
                    r matches RegistryReply::Applied(Some(res)) && (final(self)@, res is Ok)
                        == spec_apply(old(self)@, node@, change@)
                } else {
                    r matches RegistryReply::Applied(None) && final(self)@ == old(self)@
                },
                RegistryCmd::Register(reg, pid) => r matches RegistryReply::Registered(res)
                    && register_post(old(self)@, reg@, pid@, res, final(self)@),
                RegistryCmd::Lookup(k) => r matches RegistryReply::Found(e) && opt_entry_view(e)
                    == spec_select(old(self)@.entries, k@) && final(self)@ == old(self)@,
                RegistryCmd::NotifyExit(k, id) => r matches RegistryReply::Exited(ev) && exit_post(
                    old(self)@,
                    k@,
                    id.0,
                    ev,
                    final(self)@,
                ),
                RegistryCmd::GetAll => r matches RegistryReply::All(all) && entries_view(all@)
                    == spec_all(old(self)@.entries) && final(self)@ == old(self)@,
                RegistryCmd::RemoteUp(svc) => r is Done && final(self)@ == spec_remote_up(
                    old(self)@,
                    svc@,
                ),
                RegistryCmd::RemoteDown { node, name, pid } => r is Done && final(self)@ == (
                RegistryView {
                    entries: retained(
                        old(self)@.entries,
                        KeepView::NotRemoteMatching(node@, name@, pid@),
                        Seq::empty(),
                    ),
                    ..old(self)@
                }),
                RegistryCmd::RemoveNode(node) => r is Done && final(self)@ == (RegistryView {
                    entries: retained(
                        old(self)@.entries,
                        KeepView::NotRemoteOn(node@),
                        Seq::empty(),
                    ),
                    revisions: old(self)@.revisions.filter(other_node(node@)),
                    ..old(self)@
                }),
            },
    {
        match cmd {
            RegistryCmd::Checkpoint => RegistryReply::Checkpoint(self.checkpoint()),
            RegistryCmd::ApplyRemote { node, change, caller_waiting } => {
                // A caller that stopped waiting must not see its change applied
                // later, after the link it came from may be gone.
                if caller_waiting {
                    let ghost ov = self@;
                    let ghost cv = change@;
                    let res = self.apply_remote_change(node.as_str(), change);
                    proof {
                        lemma_apply_numbered(ov, node@, cv);
                    }
                    RegistryReply::Applied(Some(res))
                } else {
                    RegistryReply::Applied(None)
                }
            },
            RegistryCmd::Register(reg, pid) => {
                let ghost ov = self@;
                let ghost rv = reg@;
                let ghost pv = pid@;
                let res = self.register(reg, pid);
                proof {
                    lemma_register_numbered(ov, rv, pv, res, self@);
                }
                RegistryReply::Registered(res)
            },
            RegistryCmd::Lookup(k) => RegistryReply::Found(self.lookup(k.as_str())),
            RegistryCmd::NotifyExit(k, id) => {
                let ghost ov = self@;
                let ev = self.notify_exit(k.as_str(), id);
                proof {
                    lemma_exit_numbered(ov, k@, id.0, ev, self@);
                }
                RegistryReply::Exited(ev)
            },
            RegistryCmd::GetAll => RegistryReply::All(self.all()),
            RegistryCmd::RemoteUp(svc) => {
                let ghost ov = self@;
                let ghost sv = svc@;
                self.remote_up(svc);
                proof {
                    lemma_remote_up_numbered(ov, sv);
                }
                RegistryReply::Done
            },
            RegistryCmd::RemoteDown { node, name, pid } => {
                proof {
                    lemma_retained_within(
                        self@.entries,
                        KeepView::NotRemoteMatching(node@, name@, pid@),
                        Seq::empty(),
                    );
                }
                self.remove_remote(node.as_str(), name.as_str(), &pid);
                RegistryReply::Done
            },
            RegistryCmd::RemoveNode(node) => {
                proof {
                    lemma_retained_within(self@.entries, KeepView::NotRemoteOn(node@), Seq::empty());
                }
                self.remove_node(node.as_str());
                RegistryReply::Done
            },
        }
    }
}

/// The entry that answers for a name is one registered under it, and no
/// entry under that name was observed later; there is none exactly when
/// nothing is registered under the name.
pub proof fn law_lookup_answers_latest(s: RegistryView, name: Seq<char>)
    requires
        entries_ordered(s.entries, s.observed),
    ensures
        (spec_select(s.entries, name) is Some) == (exists|i: int|
            0 <= i < s.entries.len() && s.entries[i].desc.name == name),
        spec_select(s.entries, name) matches Some(e) ==> {
            &&& e.desc.name == name
            &&& exists|i: int| 0 <= i < s.entries.len() && s.entries[i] == e
            &&& forall|j: int|
                0 <= j < s.entries.len() && s.entries[j].desc.name == name ==> s.entries[j].observed
                    <= e.observed
        },
    decreases s.entries.len(),
{
    lemma_select(s.entries, s.observed, name);
}

proof fn lemma_select(entries: Seq<EntryView>, bound: u64, name: Seq<char>)
    requires
        entries_ordered(entries, bound),
    ensures
        (spec_select(entries, name) is Some) == (exists|i: int|
            0 <= i < entries.len() && entries[i].desc.name == name),
        spec_select(entries, name) matches Some(e) ==> {
            &&& e.desc.name == name
            &&& exists|i: int| 0 <= i < entries.len() && entries[i] == e
            &&& forall|j: int|
                0 <= j < entries.len() && entries[j].desc.name == name ==> entries[j].observed
                    <= e.observed
        },
    decreases entries.len(),
{
    if entries.len() > 0 {
        let rest = entries.drop_last();
        assert(entries_ordered(rest, bound)) by {
            assert forall|i: int, j: int| 0 <= i < j < rest.len() implies rest[i].observed
                < rest[j].observed by {
                assert(rest[i] == entries[i] && rest[j] == entries[j]);
            }
            assert forall|i: int| 0 <= i < rest.len() implies rest[i].observed <= bound by {
                assert(rest[i] == entries[i]);
            }
        }
        lemma_select(rest, bound, name);
        if entries.last().desc.name == name {
            assert(entries[entries.len() - 1] == entries.last());
        } else {
            if exists|i: int| 0 <= i < entries.len() && entries[i].desc.name == name {
                let i = choose|i: int| 0 <= i < entries.len() && entries[i].desc.name == name;
                assert(rest[i] == entries[i]);
            }
            if spec_select(rest, name) is Some {
                let e = spec_select(rest, name)->0;
                let i = choose|i: int| 0 <= i < rest.len() && rest[i] == e;
                assert(entries[i] == rest[i]);
                assert forall|j: int|
                    0 <= j < entries.len() && entries[j].desc.name == name implies entries[j].observed
                    <= e.observed by {
                    assert(entries[j] == rest[j]);
                }
            }
        }
    }
}

/// Latest registration wins: right after a process registers, locally or on
/// a linked node, lookups of its name answer with it.
pub proof fn law_latest_registration_wins(
    old: RegistryView,
    reg: RegistrationView,
    pid: PidView,
    r: Result<(Option<RegistryEvent>, EntryId), RegistryError>,
    new: RegistryView,
    svc: DescView,
)
    requires
        register_post(old, reg, pid, r, new),
    ensures
        r is Ok ==> spec_select(new.entries, reg.keyword) == Some(
            EntryView {
                desc: DescView { name: reg.keyword, pid, details: reg.details },
                local: true,
                observed: (old.observed + 1) as u64,
            },
        ),
        svc.pid.node != old.node ==> spec_select(spec_remote_up(old, svc).entries, svc.name) == Some(
            EntryView { desc: svc, local: false, observed: (old.observed + 1) as u64 },
        ),
{
}

/// Law: the latest registration wins for as long as it stands. Entries are
/// numbered in the order they are observed, and every registration or
/// announcement that installs an entry numbers it after all others; so
/// whatever commands follow, as long as the entry last installed under a
/// name is still there, a lookup of the name answers with it.
pub proof fn law_latest_registration_stands(entries: Seq<EntryView>, observed: u64, x: EntryView)
    requires
        entries_ordered(entries, observed),
        entries.contains(x),
        forall|i: int|
            0 <= i < entries.len() && (#[trigger] entries[i]).desc.name == x.desc.name
                ==> entries[i].observed <= x.observed,
    ensures
        spec_select(entries, x.desc.name) == Some(x),
    decreases entries.len(),
{
    let k = choose|k: int| 0 <= k < entries.len() && entries[k] == x;
    let last = entries.len() - 1;
    assert(entries.last() == entries[last]);
    if entries.last().desc.name == x.desc.name {
        if k < last {
            assert(entries[k].observed < entries[last].observed);
        }
    } else {
        let front = entries.drop_last();
        assert(front[k] == x);
        assert forall|i: int|
            0 <= i < front.len() && (#[trigger] front[i]).desc.name == x.desc.name
                implies front[i].observed <= x.observed by {
            assert(front[i] == entries[i]);
        }
        assert forall|i: int, j: int| 0 <= i < j < front.len() implies front[i].observed
            < front[j].observed by {
            assert(front[i] == entries[i] && front[j] == entries[j]);
        }
        assert forall|i: int| 0 <= i < front.len() implies front[i].observed <= observed by {
            assert(front[i] == entries[i]);
        }
        law_latest_registration_stands(front, observed, x);
    }
}

/// Changes are versioned: one no newer than what was applied from a node
/// changes nothing, and applying the same change twice is applying it once.
pub proof fn law_versioned_changes(s: RegistryView, node: Seq<char>, c: ChangeView)
    ensures
        stale(s, node, change_rev(c)) ==> spec_apply(s, node, c) == (s, true),
        spec_apply(spec_apply(s, node, c).0, node, c) == spec_apply(s, node, c),
{
    let (s1, ok) = spec_apply(s, node, c);
    if !stale(s, node, change_rev(c)) && ok {
        let revs = s1.revisions;
        assert(revs.last() == (node, change_rev(c)));
        assert(revision_of(revs, node) == Some(change_rev(c)));
    }
}

/// Dropping a node link forgets everything learned from the node: none of
/// its services remain, nor a revision, so a new link starts afresh.
pub proof fn law_remove_node_forgets(s: RegistryView, node: Seq<char>)
    ensures
        forall|i: int|
            0 <= i < retained(s.entries, KeepView::NotRemoteOn(node), Seq::empty()).len()
                ==> !remote_on(
                #[trigger] retained(s.entries, KeepView::NotRemoteOn(node), Seq::empty())[i],
                node,
            ),
        revision_of(s.revisions.filter(other_node(node)), node) is None,
{
    let kp = keep_pred(KeepView::NotRemoteOn(node), Seq::empty());
    assert forall|i: int|
        0 <= i < retained(s.entries, KeepView::NotRemoteOn(node), Seq::empty()).len() implies !remote_on(
        #[trigger] retained(s.entries, KeepView::NotRemoteOn(node), Seq::empty())[i],
        node,
    ) by {
        s.entries.lemma_filter_pred(kp, i);
    }
    lemma_revision_of_filtered(s.revisions, node);
}

proof fn lemma_revision_of_filtered(revs: Seq<(Seq<char>, u64)>, node: Seq<char>)
    ensures
        revision_of(revs.filter(other_node(node)), node) is None,
    decreases revs.len(),
{
    reveal(Seq::filter);
    if revs.len() > 0 {
        lemma_revision_of_filtered(revs.drop_last(), node);
        let f = revs.drop_last().filter(other_node(node));
        if other_node(node)(revs.last()) {
            assert(f.push(revs.last()).drop_last() =~= f);
            assert(revs.filter(other_node(node)) == f.push(revs.last()));
        } else {
            assert(revs.filter(other_node(node)) == f);
        }
    }
}

/// Every entry after a step was there before it or is numbered after all
/// entries observed before it; the counter does not go back.
pub open spec fn numbered_step(old: RegistryView, new: RegistryView) -> bool {
    &&& old.observed <= new.observed
    &&& forall|e: EntryView|
        #[trigger] new.entries.contains(e) ==> old.entries.contains(e) || old.observed < e.observed
}

proof fn lemma_numbered_trans(a: RegistryView, b: RegistryView, c: RegistryView)
    requires
        numbered_step(a, b),
        numbered_step(b, c),
    ensures
        numbered_step(a, c),
{
    assert forall|e: EntryView| #[trigger] c.entries.contains(e) implies a.entries.contains(e)
        || a.observed < e.observed by {
        if b.entries.contains(e) {
        }
    }
}

proof fn lemma_retained_within(entries: Seq<EntryView>, k: KeepView, services: Seq<DescView>)
    ensures
        forall|e: EntryView| #[trigger] retained(entries, k, services).contains(e) ==> entries.contains(e),
{
    assert forall|e: EntryView| #[trigger] retained(entries, k, services).contains(e) implies entries.contains(e) by {
        entries.lemma_filter_contains_rev(keep_pred(k, services), e);
    }
}

proof fn lemma_remote_up_numbered(s: RegistryView, svc: DescView)
    requires
        s.observed < u64::MAX,
    ensures
        numbered_step(s, spec_remote_up(s, svc)),
        spec_remote_up(s, svc).observed <= s.observed + 1,
{
    if svc.pid.node != s.node {
        let base = retained(s.entries, KeepView::NotRemoteNamedOn(svc.name, svc.pid.node), Seq::empty());
        lemma_retained_within(s.entries, KeepView::NotRemoteNamedOn(svc.name, svc.pid.node), Seq::empty());
        let fresh = EntryView { desc: svc, local: false, observed: (s.observed + 1) as u64 };
        let n = spec_remote_up(s, svc);
        assert(n.entries == base.push(fresh));
        assert forall|e: EntryView| #[trigger] n.entries.contains(e) implies s.entries.contains(e)
            || s.observed < e.observed by {
            let i = choose|i: int| 0 <= i < n.entries.len() && n.entries[i] == e;
            if i < base.len() {
                assert(base[i] == e);
                assert(base.contains(e));
            }
        }
    }
}

proof fn lemma_fold_numbered(s: RegistryView, node: Seq<char>, services: Seq<DescView>)
    requires
        s.observed + services.len() < u64::MAX,
    ensures
        numbered_step(s, snapshot_fold(s, node, services)),
        snapshot_fold(s, node, services).observed <= s.observed + services.len(),
    decreases services.len(),
{
    if services.len() > 0 {
        let front = services.drop_last();
        lemma_fold_numbered(s, node, front);
        let m = snapshot_fold(s, node, front);
        let svc = services.last();
        if !(svc.pid.node != node || unchanged(m.entries, node, svc)) {
            lemma_remote_up_numbered(m, svc);
            lemma_numbered_trans(s, m, spec_remote_up(m, svc));
        }
    }
}

proof fn lemma_apply_numbered(s: RegistryView, node: Seq<char>, c: ChangeView)
    requires
        !stale(s, node, change_rev(c)) ==> s.observed + change_additions(c) < u64::MAX,
    ensures
        numbered_step(s, spec_apply(s, node, c).0),
{
    if !stale(s, node, change_rev(c)) {
        match c {
            ChangeView::Snapshot(rev, svcs) => {
                let s1 = RegistryView {
                    entries: retained(s.entries, KeepView::ListedOrNotRemoteOn(node), svcs),
                    ..s
                };
                lemma_retained_within(s.entries, KeepView::ListedOrNotRemoteOn(node), svcs);
                assert(numbered_step(s, s1));
                lemma_fold_numbered(s1, node, svcs);
                lemma_numbered_trans(s, s1, snapshot_fold(s1, node, svcs));
            },
            ChangeView::Up(rev, svc) => {
                if svc.pid.node == node {
                    lemma_remote_up_numbered(s, svc);
                }
            },
            ChangeView::Down(rev, name, pid) => {
                lemma_retained_within(s.entries, KeepView::NotRemoteMatching(node, name, pid), Seq::empty());
            },
        }
    }
}

proof fn lemma_register_numbered(
    old: RegistryView,
    reg: RegistrationView,
    pid: PidView,
    r: Result<(Option<RegistryEvent>, EntryId), RegistryError>,
    new: RegistryView,
)
    requires
        register_post(old, reg, pid, r, new),
        old.observed < u64::MAX,
    ensures
        numbered_step(old, new),
{
    if !(exists_local(old.entries, reg.keyword) && !reg.overwrite) {
        let base = if reg.overwrite {
            retained(old.entries, KeepView::NotLocalNamed(reg.keyword), Seq::empty())
        } else {
            old.entries
        };
        lemma_retained_within(old.entries, KeepView::NotLocalNamed(reg.keyword), Seq::empty());
        assert forall|e: EntryView| #[trigger] new.entries.contains(e) implies old.entries.contains(e)
            || old.observed < e.observed by {
            let i = choose|i: int| 0 <= i < new.entries.len() && new.entries[i] == e;
            if i < base.len() {
                assert(new.entries[i] == base[i]);
                assert(base.contains(e));
            }
        }
    }
}

proof fn lemma_exit_numbered(
    old: RegistryView,
    name: Seq<char>,
    observed: u64,
    r: Option<RegistryEvent>,
    new: RegistryView,
)
    requires
        exit_post(old, name, observed, r, new),
    ensures
        numbered_step(old, new),
{
    let idx = find_observed(old.entries, name, observed);
    if idx >= 0 {
        lemma_find_observed(old.entries, name, observed);
        assert forall|e: EntryView| #[trigger] new.entries.contains(e) implies old.entries.contains(e) by {
            let i = choose|i: int| 0 <= i < new.entries.len() && new.entries[i] == e;
            if i < idx {
                assert(old.entries[i] == e);
            } else {
                assert(old.entries[i + 1] == e);
            }
        }
    }
}

/// Law: the latest registration wins for as long as it stands, over any
/// run of registry states in which each step numbers what it adds after all
/// earlier entries (as [Registry::handle_cmd] does). Where the entry `x`
/// was installed at step `i`, last among what that step installed under its
/// name, where no later step installed an entry under that name, and where
/// `x` is still there at the end, a lookup of the name answers with `x`,
/// whether `x` is local or another node's.
pub proof fn law_latest_registration_wins_over_runs(states: Seq<RegistryView>, i: int, x: EntryView)
    requires
        forall|j: int|
            0 <= j < states.len() ==> entries_ordered(
                #[trigger] states[j].entries,
                states[j].observed,
            ),
        forall|j: int| 0 < j < states.len() ==> numbered_step(states[j - 1], #[trigger] states[j]),
        0 < i < states.len(),
        states[i].entries.contains(x),
        !states[i - 1].entries.contains(x),
        forall|e: EntryView|
            #[trigger] states[i].entries.contains(e) && !states[i - 1].entries.contains(e)
                && e.desc.name == x.desc.name ==> e.observed <= x.observed,
        forall|j: int, e: EntryView|
            i < j < states.len() && #[trigger] states[j].entries.contains(e) && !states[j
                - 1].entries.contains(e) ==> e.desc.name != x.desc.name,
        states.last().entries.contains(x),
    ensures
        spec_select(states.last().entries, x.desc.name) == Some(x),
{
    let last = states.len() - 1;
    assert(states.last() == states[last]);
    lemma_latest_bound(states, i, x, last);
    let fin = states[last];
    assert forall|k: int|
        0 <= k < fin.entries.len() && (#[trigger] fin.entries[k]).desc.name == x.desc.name
            implies fin.entries[k].observed <= x.observed by {
        assert(fin.entries.contains(fin.entries[k]));
    }
    assert(entries_ordered(states[last].entries, states[last].observed));
    law_latest_registration_stands(fin.entries, fin.observed, x);
}

proof fn lemma_latest_bound(states: Seq<RegistryView>, i: int, x: EntryView, j: int)
    requires
        forall|j: int|
            0 <= j < states.len() ==> entries_ordered(
                #[trigger] states[j].entries,
                states[j].observed,
            ),
        forall|j: int| 0 < j < states.len() ==> numbered_step(states[j - 1], #[trigger] states[j]),
        0 < i <= j < states.len(),
        states[i].entries.contains(x),
        !states[i - 1].entries.contains(x),
        forall|e: EntryView|
            #[trigger] states[i].entries.contains(e) && !states[i - 1].entries.contains(e)
                && e.desc.name == x.desc.name ==> e.observed <= x.observed,
        forall|j: int, e: EntryView|
            i < j < states.len() && #[trigger] states[j].entries.contains(e) && !states[j
                - 1].entries.contains(e) ==> e.desc.name != x.desc.name,
    ensures
        forall|e: EntryView|
            #[trigger] states[j].entries.contains(e) && e.desc.name == x.desc.name ==> e.observed
                <= x.observed,
    decreases j - i,
{
    if j == i {
        assert(numbered_step(states[i - 1], states[i]));
        assert forall|e: EntryView| #[trigger] states[j].entries.contains(e) && e.desc.name
            == x.desc.name implies e.observed <= x.observed by {
            if states[i - 1].entries.contains(e) {
                let p = states[i - 1];
                assert(entries_ordered(p.entries, p.observed));
                let k = choose|k: int| 0 <= k < p.entries.len() && p.entries[k] == e;
                assert(e.observed <= p.observed);
            }
        }
    } else {
        lemma_latest_bound(states, i, x, j - 1);
        assert(numbered_step(states[j - 1], states[j]));
        assert forall|e: EntryView| #[trigger] states[j].entries.contains(e) && e.desc.name
            == x.desc.name implies e.observed <= x.observed by {
            assert(states[j - 1].entries.contains(e));
        }
    }
}

/// Law: listing all entries shows, under each name, only the entry that a
/// lookup of the name answers with; so where the latest registration wins
/// a lookup, it is also the only one listed under its name.
pub proof fn law_all_lists_the_answering_entry(entries: Seq<EntryView>, e: EntryView)
    requires
        spec_all(entries).contains(e),
    ensures
        spec_select(entries, e.desc.name) == Some(e),
    decreases entries.len(),
{
    let front = entries.drop_last();
    let last = entries.last();
    let kept = retained(spec_all(front), KeepView::NotNamed(last.desc.name), Seq::empty());
    assert(spec_all(entries) == kept.push(last));
    if e != last {
        let i = choose|i: int| 0 <= i < kept.push(last).len() && kept.push(last)[i] == e;
        assert(i < kept.len());
        assert(kept[i] == e);
        spec_all(front).lemma_filter_pred(keep_pred(KeepView::NotNamed(last.desc.name), Seq::empty()), i);
        assert(kept.contains(e));
        spec_all(front).lemma_filter_contains_rev(keep_pred(KeepView::NotNamed(last.desc.name), Seq::empty()), e);
        law_all_lists_the_answering_entry(front, e);
    }
}

/// Law: listing all entries leaves no registered name out: for every entry
/// of the registry, the listing holds an entry under its name, the one a
/// lookup of the name answers with.
pub proof fn law_all_lists_every_name(entries: Seq<EntryView>, i: int)
    requires
        0 <= i < entries.len(),
    ensures
        exists|e: EntryView|
            #[trigger] spec_all(entries).contains(e) && e.desc.name == entries[i].desc.name
                && spec_select(entries, entries[i].desc.name) == Some(e),
    decreases entries.len(),
{
    let front = entries.drop_last();
    let last = entries.last();
    let k = entries[i].desc.name;
    let kept = retained(spec_all(front), KeepView::NotNamed(last.desc.name), Seq::empty());
    assert(spec_all(entries) == kept.push(last));
    assert(kept.push(last)[kept.len() as int] == last);
    if last.desc.name != k {
        assert(i < entries.len() - 1);
        assert(front[i] == entries[i]);
        law_all_lists_every_name(front, i);
        let e = choose|e: EntryView|
            #[trigger] spec_all(front).contains(e) && e.desc.name == front[i].desc.name
                && spec_select(front, front[i].desc.name) == Some(e);
        let w = choose|w: int| 0 <= w < spec_all(front).len() && spec_all(front)[w] == e;
        spec_all(front).lemma_filter_contains(keep_pred(KeepView::NotNamed(last.desc.name), Seq::empty()), w);
        assert(kept.contains(e));
        let v = choose|v: int| 0 <= v < kept.len() && kept[v] == e;
        assert(kept.push(last)[v] == e);
        assert(spec_all(entries).contains(e));
        assert(spec_select(entries, k) == spec_select(front, k));
        assert(spec_all(entries).contains(e) && e.desc.name == entries[i].desc.name
            && spec_select(entries, entries[i].desc.name) == Some(e));
    } else {
        assert(spec_all(entries).contains(last));
        assert(spec_select(entries, k) == Some(last));
        assert(spec_all(entries).contains(last) && last.desc.name == entries[i].desc.name
            && spec_select(entries, entries[i].desc.name) == Some(last));
    }
}

} // verus!
