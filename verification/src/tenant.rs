//! Multi-tenant drive registry — one host may serve many drives, each with its own change feed,
//! billing terms and last snapshot. Authorization roots at the host's own key (the workspace root),
//! so every member's capability chains to it; membership is the set of issued capabilities, not a
//! table.
use vstd::prelude::*;
use vstd::string::*;

use crate::cap::{hex_encode, hex_text, NodeId};
use crate::feed::Feed;
use crate::step::outcome;
use crate::text::{cat, same};
use crate::wire::{ChangeView, Quota, QuotaView};

verus! {

/// A single hosted drive: its change feed and billing terms. The `snapshot` caches the id of the
/// last published bootstrap snapshot (the `Open` reply value).
#[derive(Debug)]
pub struct Tenant {
    pub feed: Feed,
    pub quota: Quota,
    /// Id of the last-published bootstrap snapshot, and the feed cursor it was taken at.
    pub snapshot: Option<(String, u64)>,
}

/// Model of [`Tenant`].
#[verifier::ext_equal]
pub struct TenantView {
    pub feed: Seq<ChangeView>,
    pub quota: QuotaView,
    pub snapshot: Option<(Seq<char>, u64)>,
}

impl View for Tenant {
    type V = TenantView;

    open spec fn view(&self) -> TenantView {
        TenantView {
            feed: self.feed@,
            quota: self.quota.deep_view(),
            snapshot: self.snapshot.deep_view(),
        }
    }
}

/// A drive that nothing has happened to since it was opened.
pub open spec fn fresh(quota: QuotaView) -> TenantView {
    TenantView { feed: Seq::empty(), quota, snapshot: None }
}

impl Tenant {
    /// The changes of the feed are numbered without a gap.
    pub open spec fn wf(self) -> bool {
        self.feed.wf()
    }

    /// A fresh empty drive on these billing terms.
    pub fn new(quota: Quota) -> (r: Self)
        ensures
            r.wf(),
            r@ == fresh(quota.deep_view()),
    {
        Tenant { feed: Feed::new(), quota, snapshot: None }
    }

    /// A drive rebuilt from durable state, on these billing terms. The feed restarts at 0: clients
    /// bootstrap again from a snapshot, then poll forward.
    pub fn from_state(quota: Quota) -> (r: Self)
        ensures
            r.wf(),
            r@ == fresh(quota.deep_view()),
    {
        Tenant { feed: Feed::new(), quota, snapshot: None }
    }
}

/// The drives of a host, by id.
pub type Drives = Map<Seq<char>, TenantView>;

/// The registry of all drives a host serves, keyed by drive id.
#[derive(Debug)]
pub struct Registry {
    host_id_hex: String,
    drives: Vec<(String, Tenant)>,
}

spec fn at(drives: Seq<(String, Tenant)>, id: Seq<char>, i: int) -> bool {
    0 <= i < drives.len() && drives[i].0@ == id
}

spec fn listed(drives: Seq<(String, Tenant)>, id: Seq<char>) -> bool {
    exists|i: int| at(drives, id, i)
}

spec fn place(drives: Seq<(String, Tenant)>, id: Seq<char>) -> int {
    choose|i: int| at(drives, id, i)
}

spec fn once_each(drives: Seq<(String, Tenant)>) -> bool {
    forall|i: int, j: int|
        0 <= i < j < drives.len() ==> (#[trigger] drives[i]).0@ != (#[trigger] drives[j]).0@
}

spec fn model(drives: Seq<(String, Tenant)>) -> Drives {
    Map::new(
        |id: Seq<char>| listed(drives, id),
        |id: Seq<char>| drives[place(drives, id)].1@,
    )
}

proof fn lemma_replaced(drives: Seq<(String, Tenant)>, i: int)
    requires
        0 <= i < drives.len(),
        once_each(drives),
    ensures
        forall|e: (String, Tenant)|
            e.0 == drives[i].0 ==> {
                &&& model(#[trigger] drives.update(i, e)) == model(drives).insert(e.0@, e.1@)
                &&& once_each(drives.update(i, e))
            },
{
    assert forall|e: (String, Tenant)| e.0 == drives[i].0 implies {
        &&& model(#[trigger] drives.update(i, e)) == model(drives).insert(e.0@, e.1@)
        &&& once_each(drives.update(i, e))
    } by {
        let now = drives.update(i, e);
        assert forall|id: Seq<char>| #[trigger] listed(now, id) == listed(drives, id) && (listed(
            drives,
            id,
        ) ==> place(now, id) == place(drives, id)) by {
            if listed(drives, id) {
                let k = place(drives, id);
                assert(at(drives, id, k));
                assert(at(now, id, k));
                assert(at(now, id, place(now, id)));
                assert(now[k].0@ == now[place(now, id)].0@);
            }
            if listed(now, id) {
                assert(at(now, id, place(now, id)));
                assert(at(drives, id, place(now, id)));
            }
        }
        assert(at(drives, e.0@, i));
        assert(at(drives, e.0@, place(drives, e.0@)));
        assert(place(drives, e.0@) == i);
        assert(model(now) =~= model(drives).insert(e.0@, e.1@));
    }
}

impl View for Registry {
    type V = Drives;

    closed spec fn view(&self) -> Drives {
        model(self.drives@)
    }
}

/// The refusal to open a drive a second time.
pub open spec fn exists_message(drive_id: Seq<char>) -> Seq<char> {
    "drive '"@ + drive_id + "' already exists"@
}

/// The drives after one is opened on these terms, and the outcome: a drive that is there already stays
/// as it is.
pub open spec fn with_drive(w: Drives, id: Seq<char>, quota: QuotaView) -> (Drives, Result<(), Seq<char>>) {
    if w.contains_key(id) {
        (w, Err(exists_message(id)))
    } else {
        (w.insert(id, fresh(quota)), Ok(()))
    }
}

impl Registry {
    /// No drive is there twice, and every feed is numbered without a gap.
    pub closed spec fn wf(self) -> bool {
        &&& once_each(self.drives@)
        &&& forall|i: int| 0 <= i < self.drives@.len() ==> (#[trigger] self.drives@[i]).1.wf()
    }

    /// The id of the host, in hexadecimal.
    pub closed spec fn host(self) -> Seq<char> {
        self.host_id_hex@
    }

    /// Whether every feed can take one more change.
    pub open spec fn has_room(self) -> bool {
        forall|id: Seq<char>| #[trigger]
            self@.contains_key(id) ==> self@[id].feed.len() < u64::MAX
    }

    /// A registry without drives, on the host with this id.
    pub fn new(host_id: &NodeId) -> (r: Self)
        ensures
            r.wf(),
            r.host() == hex_text(host_id@),
            r@ == Map::<Seq<char>, TenantView>::empty(),
    {
        let r = Registry { host_id_hex: hex_encode(host_id.as_slice()), drives: Vec::new() };
        assert(r@ =~= Map::<Seq<char>, TenantView>::empty());
        r
    }

    /// The host (and capability root) node id, in hexadecimal.
    pub fn host_id_hex(&self) -> (r: &str)
        ensures
            r@ == self.host(),
    {
        self.host_id_hex.as_str()
    }

    fn find(&self, drive_id: &str) -> (r: Option<usize>)
        requires
            self.wf(),
        ensures
            match r {
                Some(i) => {
                    &&& at(self.drives@, drive_id@, i as int)
                    &&& place(self.drives@, drive_id@) == i
                    &&& self@.contains_key(drive_id@)
                    &&& self@[drive_id@] == self.drives@[i as int].1@
                },
                None => !listed(self.drives@, drive_id@) && !self@.contains_key(drive_id@),
            },
    {
        let n: usize = self.drives.len();
        let mut i: usize = 0;
        while i < n
            invariant
                i <= n,
                n == self.drives@.len(),
                once_each(self.drives@),
                forall|k: int| 0 <= k < i ==> (#[trigger] self.drives@[k]).0@ != drive_id@,
            decreases n - i,
        {
            if same(self.drives[i].0.as_str(), drive_id) {
                assert(at(self.drives@, drive_id@, i as int));
                let ghost p = place(self.drives@, drive_id@);
                assert(at(self.drives@, drive_id@, p));
                assert(self.drives@[p].0@ == self.drives@[i as int].0@);
                return Some(i);
            }
            i = i + 1;
        }
        None
    }

    fn add_tenant(&mut self, drive_id: &str, tenant: Tenant)
        requires
            old(self).wf(),
            tenant.wf(),
            !old(self)@.contains_key(drive_id@),
        ensures
            final(self).wf(),
            final(self).host() == old(self).host(),
            final(self)@ == old(self)@.insert(drive_id@, tenant@),
    {
        let ghost was = self.drives@;
        let ghost view = self@;
        assert(!listed(was, drive_id@)) by {
            assert(view.contains_key(drive_id@) == listed(was, drive_id@));
        }
        assert forall|k: int| 0 <= k < was.len() implies (#[trigger] was[k]).0@ != drive_id@ by {
            if was[k].0@ == drive_id@ {
                assert(at(was, drive_id@, k));
            }
        }
        self.drives.push((drive_id.to_owned(), tenant));
        proof {
            let now = self.drives@;
            assert(at(now, drive_id@, was.len() as int));
            assert forall|id: Seq<char>| id != drive_id@ implies #[trigger] listed(now, id) == listed(
                was,
                id,
            ) && (listed(was, id) ==> place(now, id) == place(was, id)) by {
                if listed(was, id) {
                    let i = place(was, id);
                    assert(at(was, id, i));
                    assert(at(now, id, i));
                    assert(at(now, id, place(now, id)));
                    assert(now[i].0@ == now[place(now, id)].0@);
                }
                if listed(now, id) {
                    let j = place(now, id);
                    assert(at(now, id, j));
                    assert(at(was, id, j));
                }
            }
            assert(at(now, drive_id@, place(now, drive_id@)));
            assert(self@ =~= view.insert(drive_id@, tenant@));
        }
    }

    /// Create a new empty drive `drive_id` with the given billing terms. Errors if it already
    /// exists.
    pub fn create(&mut self, drive_id: &str, quota: Quota) -> (r: Result<(), String>)
        requires
            old(self).wf(),
        ensures
            final(self).wf(),
            (final(self)@, outcome(r)) == with_drive(old(self)@, drive_id@, quota.deep_view()),
            final(self).host() == old(self).host(),
            if old(self)@.contains_key(drive_id@) {
                &&& r matches Err(e) && e@ == exists_message(drive_id@)
                &&& final(self)@ == old(self)@
            } else {
                &&& r is Ok
                &&& final(self)@ == old(self)@.insert(drive_id@, fresh(quota.deep_view()))
            },
    {
        match self.find(drive_id) {
            Some(_) => Err(cat(cat("drive '", drive_id).as_str(), "' already exists")),
            None => {
                self.add_tenant(drive_id, Tenant::new(quota));
                Ok(())
            },
        }
    }

    /// Register a drive rebuilt from persisted state (standby resume). Errors if it already exists.
    pub fn restore(&mut self, drive_id: &str, quota: Quota) -> (r: Result<(), String>)
        requires
            old(self).wf(),
        ensures
            final(self).wf(),
            (final(self)@, outcome(r)) == with_drive(old(self)@, drive_id@, quota.deep_view()),
            final(self).host() == old(self).host(),
            if old(self)@.contains_key(drive_id@) {
                &&& r matches Err(e) && e@ == exists_message(drive_id@)
                &&& final(self)@ == old(self)@
            } else {
                &&& r is Ok
                &&& final(self)@ == old(self)@.insert(drive_id@, fresh(quota.deep_view()))
            },
    {
        match self.find(drive_id) {
            Some(_) => Err(cat(cat("drive '", drive_id).as_str(), "' already exists")),
            None => {
                self.add_tenant(drive_id, Tenant::from_state(quota));
                Ok(())
            },
        }
    }

    /// Borrow a drive by id.
    pub fn get(&self, drive_id: &str) -> (r: Option<&Tenant>)
        requires
            self.wf(),
        ensures
            match r {
                Some(t) => self@.contains_key(drive_id@) && t@ == self@[drive_id@] && t.wf(),
                None => !self@.contains_key(drive_id@),
            },
    {
        match self.find(drive_id) {
            Some(i) => Some(&self.drives[i].1),
            None => None,
        }
    }

    /// Mutably borrow a drive by id.
    pub fn get_mut(&mut self, drive_id: &str) -> (r: Option<&mut Tenant>)
        requires
            old(self).wf(),
        ensures
            final(self).host() == old(self).host(),
            match r {
                Some(t) => {
                    &&& old(self)@.contains_key(drive_id@)
                    &&& t@ == old(self)@[drive_id@]
                    &&& t.wf()
                    &&& final(self)@ == old(self)@.insert(drive_id@, final(t)@)
                    &&& final(t).wf() ==> final(self).wf()
                },
                None => {
                    &&& !old(self)@.contains_key(drive_id@)
                    &&& final(self)@ == old(self)@
                    &&& final(self).wf()
                },
            },
    {
        match self.find(drive_id) {
            Some(i) => {
                proof {
                    lemma_replaced(self.drives@, i as int);
                }
                Some(&mut self.drives[i].1)
            },
            None => None,
        }
    }

    /// The drive ids this host serves.
    pub fn drive_ids(&self) -> (r: Vec<String>)
        requires
            self.wf(),
        ensures
            r.deep_view().no_duplicates(),
            r.deep_view().to_set() == self@.dom(),
    {
        let n: usize = self.drives.len();
        let mut out: Vec<String> = Vec::new();
        let mut i: usize = 0;
        while i < n
            invariant
                i <= n,
                n == self.drives@.len(),
                out@.len() == i,
                forall|k: int| 0 <= k < i ==> (#[trigger] out@[k])@ == self.drives@[k].0@,
            decreases n - i,
        {
            out.push(self.drives[i].0.clone());
            i = i + 1;
        }
        let ghost ids = out.deep_view();
        assert(forall|k: int| 0 <= k < n ==> #[trigger] ids[k] == self.drives@[k].0@);
        assert(ids.to_set() =~= self@.dom()) by {
            assert forall|id: Seq<char>| ids.contains(id) <==> listed(self.drives@, id) by {
                if ids.contains(id) {
                    let k = choose|k: int| 0 <= k < ids.len() && ids[k] == id;
                    assert(at(self.drives@, id, k));
                }
                if listed(self.drives@, id) {
                    let k = place(self.drives@, id);
                    assert(at(self.drives@, id, k));
                    assert(ids[k] == id);
                }
            }
        }
        out
    }

    /// Whether every feed can take one more change.
    pub fn room(&self) -> (r: bool)
        requires
            self.wf(),
        ensures
            r == self.has_room(),
    {
        let n: usize = self.drives.len();
        let mut i: usize = 0;
        while i < n
            invariant
                i <= n,
                n == self.drives@.len(),
                self.wf(),
                forall|k: int|
                    0 <= k < i ==> (#[trigger] self.drives@[k]).1@.feed.len() < u64::MAX,
            decreases n - i,
        {
            if self.drives[i].1.feed.cursor() == u64::MAX {
                proof {
                    let id = self.drives@[i as int].0@;
                    assert(at(self.drives@, id, i as int));
                    assert(at(self.drives@, id, place(self.drives@, id)));
                    assert(place(self.drives@, id) == i);
                    assert(self@.contains_key(id));
                }
                return false;
            }
            i = i + 1;
        }
        assert forall|id: Seq<char>| #[trigger] self@.contains_key(id) implies self@[id].feed.len()
            < u64::MAX by {
            assert(at(self.drives@, id, place(self.drives@, id)));
        }
        true
    }
}

/// A drive that was created or restored is there, on its terms and with an empty feed; every other
/// drive is as it was.
pub proof fn law_created_drive_is_served(w: Drives, id: Seq<char>, quota: QuotaView, other: Seq<char>)
    requires
        !w.contains_key(id),
    ensures
        w.insert(id, fresh(quota)).contains_key(id),
        w.insert(id, fresh(quota))[id].feed.len() == 0,
        w.insert(id, fresh(quota))[id].snapshot is None,
        w.insert(id, fresh(quota))[id].quota == quota,
        other != id ==> w.insert(id, fresh(quota)).contains_key(other) == w.contains_key(other)
            && (w.contains_key(other) ==> w.insert(id, fresh(quota))[other] == w[other]),
{
}

/// A drive can be opened exactly if it is not there yet. It is then there with no changes, no snapshot
/// and the given terms. Who opens it a second time is told which drive it is that exists, and no drive
/// is touched.
pub proof fn law_drive_is_opened_once(
    w: Drives,
    id: Seq<char>,
    quota: QuotaView,
    other: Seq<char>,
    again: QuotaView,
)
    ensures
        ({
            let (v, r) = with_drive(w, id, quota);
            &&& r is Ok <==> !w.contains_key(id)
            &&& v.contains_key(id)
            &&& r is Ok ==> v[id].feed.len() == 0 && v[id].snapshot is None && v[id].quota == quota
            &&& other != id ==> v.contains_key(other) == w.contains_key(other) && (w.contains_key(
                other,
            ) ==> v[other] == w[other])
            &&& r matches Err(e) ==> v == w && e == "drive '"@ + id + "' already exists"@
            &&& with_drive(v, id, again).0 == v
            &&& with_drive(v, id, again).1 is Err
        }),
{
}

} // verus!
