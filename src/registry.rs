//! The service registry: every action of every accepted announcement,
//! indexed by `"path~version"`.

use vstd::prelude::*;
use crate::announcement::{record_body, AnnouncementPacket, AnnouncementParseError};
use crate::decimal::{decimal, write_u64};
use crate::json::str_equal;
use crate::service_info::{
    action_views, copy_action, Action, ActionView, AnnouncementBodyView, ServiceInfo, ServiceInfoView,
};
use crate::text::string_of;
use vstd::string::StringExecFns;

verus! {

/// Relies on `rand::random`: any value may come back.
pub assume_specification<T>[ rand::random::<T> ]() -> (r: T)
    where
        rand::distributions::Standard: rand::distributions::Distribution<T>,
;

/// One action as offered by one service instance.
#[derive(Debug)]
pub struct ActionEntry {
    pub action: Action,
    pub service_info: ServiceInfo,
    pub authorized: bool,
}

pub struct ActionEntryView {
    pub action: ActionView,
    pub service_info: ServiceInfoView,
    pub authorized: bool,
}

impl View for ActionEntry {
    type V = ActionEntryView;

    open spec fn view(&self) -> ActionEntryView {
        ActionEntryView { action: self.action@, service_info: self.service_info@, authorized: self.authorized }
    }
}

/// The key of an action: `"path~version"`.
pub open spec fn pathver_of(path: Seq<char>, version: u32) -> Seq<char> {
    path + seq!['~'] + decimal(version as nat).map_values(|b: u8| b as char)
}

pub open spec fn entry_key(e: ActionEntryView) -> Seq<char> {
    pathver_of(e.action.path, e.action.version)
}

pub open spec fn entry_views(v: Seq<ActionEntry>) -> Seq<ActionEntryView> {
    v.map_values(|e: ActionEntry| e@)
}

pub open spec fn group_views(v: Seq<(String, Vec<ActionEntry>)>) -> Seq<(Seq<char>, Seq<ActionEntryView>)> {
    v.map_values(|g: (String, Vec<ActionEntry>)| (g.0@, entry_views(g.1@)))
}

/// Every entry of the groups, group after group.
pub open spec fn all_entries(groups: Seq<(Seq<char>, Seq<ActionEntryView>)>) -> Seq<ActionEntryView>
    decreases groups.len(),
{
    if groups.len() == 0 {
        Seq::empty()
    } else {
        all_entries(groups.drop_last()) + groups.last().1
    }
}

/// The entries of `s` under key `k`, in order.
pub open spec fn keyed(s: Seq<ActionEntryView>, k: Seq<char>) -> Seq<ActionEntryView>
    decreases s.len(),
{
    if s.len() == 0 {
        Seq::empty()
    } else if entry_key(s.last()) == k {
        keyed(s.drop_last(), k).push(s.last())
    } else {
        keyed(s.drop_last(), k)
    }
}

/// The entries an announcement contributes: each of its actions, in order,
/// joined with the instance that announced it.
pub open spec fn announced_entries(b: AnnouncementBodyView) -> Seq<ActionEntryView> {
    b.actions.map_values(|a: ActionView| ActionEntryView { action: a, service_info: b.info, authorized: true })
}

pub struct ServiceRegistry {
    actions_by_pathver: Vec<(String, Vec<ActionEntry>)>,
}

impl View for ServiceRegistry {
    type V = Seq<(Seq<char>, Seq<ActionEntryView>)>;

    closed spec fn view(&self) -> Seq<(Seq<char>, Seq<ActionEntryView>)> {
        group_views(self.actions_by_pathver@)
    }
}

impl ServiceRegistry {
    /// One group per key, keys distinct, each group non-empty and holding
    /// only entries of its key.
    pub open spec fn wf(&self) -> bool {
        &&& forall|i: int, j: int| 0 <= i < j < self@.len() ==> self@[i].0 != self@[j].0
        &&& forall|i: int| 0 <= i < self@.len() ==> #[trigger] self@[i].1.len() > 0
        &&& forall|i: int, k: int|
            0 <= i < self@.len() && 0 <= k < self@[i].1.len() ==> entry_key(#[trigger] self@[i].1[k]) == self@[i].0
    }

    /// The entries offered under a key.
    pub open spec fn providers(&self, key: Seq<char>) -> Seq<ActionEntryView> {
        if exists|i: int| 0 <= i < self@.len() && self@[i].0 == key {
            self@[choose|i: int| 0 <= i < self@.len() && self@[i].0 == key].1
        } else {
            Seq::empty()
        }
    }

    pub fn empty() -> (r: ServiceRegistry)
        ensures
            r.wf(),
            r@ == Seq::<(Seq<char>, Seq<ActionEntryView>)>::empty(),
    {
        let r = ServiceRegistry { actions_by_pathver: Vec::new() };
        assert(r@ =~= Seq::<(Seq<char>, Seq<ActionEntryView>)>::empty());
        r
    }

    fn index_of(&self, key: &str) -> (r: Option<usize>)
        ensures
            r matches Some(i) ==> i < self@.len() && self@[i as int].0 == key@,
            r is None ==> forall|i: int| 0 <= i < self@.len() ==> self@[i].0 != key@,
    {
        let mut i: usize = 0;
        while i < self.actions_by_pathver.len()
            invariant
                i <= self@.len(),
                self@.len() == self.actions_by_pathver@.len(),
                forall|k: int| 0 <= k < i ==> self@[k].0 != key@,
            decreases self@.len() - i,
        {
            assert(self@[i as int].0 == self.actions_by_pathver@[i as int].0@);
            if str_equal(self.actions_by_pathver[i].0.as_str(), key) {
                return Some(i);
            }
            i = i + 1;
        }
        None
    }

    /// Adds one entry under its key.
    pub fn add_entry(&mut self, entry: ActionEntry)
        requires
            old(self).wf(),
        ensures
            final(self).wf(),
            all_entries(final(self)@).len() == all_entries(old(self)@).len() + 1,
            final(self).providers(entry_key(entry@)) == old(self).providers(entry_key(entry@)).push(entry@),
            forall|k: Seq<char>| k != entry_key(entry@) ==> #[trigger] final(self).providers(k) == old(self).providers(k),
    {
        let key = pathver(&entry.action);
        let ghost ev = entry@;
        let ghost old_groups = self@;
        proof {
            lemma_providers_unique(*self, key@);
        }
        match self.index_of(key.as_str()) {
            Some(i) => {
                let ghost g = self@[i as int];
                let ghost raw = self.actions_by_pathver@;
                let (k, mut group) = self.actions_by_pathver.remove(i);
                assert(k@ == g.0 && entry_views(group@) == g.1);
                group.push(entry);
                assert(entry_views(group@) =~= g.1.push(ev));
                self.actions_by_pathver.insert(i, (k, group));
                assert(self.actions_by_pathver@ =~= raw.update(i as int, (k, group)));
                assert(self@ =~= old_groups.update(i as int, (g.0, g.1.push(ev))));
                proof {
                    lemma_all_entries_update(old_groups, i as int, ev);
                    lemma_providers_at(*self, i as int);
                    assert forall|k: Seq<char>| k != key@ implies #[trigger] self.providers(k) == old(self).providers(k) by {
                        lemma_providers_unique(*self, k);
                        lemma_providers_unique(*old(self), k);
                        if exists|j: int| 0 <= j < old_groups.len() && old_groups[j].0 == k {
                            let j = choose|j: int| 0 <= j < old_groups.len() && old_groups[j].0 == k;
                            assert(self@[j] == old_groups[j]);
                        } else {
                            assert forall|j: int| 0 <= j < self@.len() implies self@[j].0 != k by {
                                if j != i {
                                    assert(self@[j] == old_groups[j]);
                                }
                            }
                        }
                    }
                }
            },
            None => {
                let mut group = Vec::new();
                group.push(entry);
                assert(entry_views(group@) =~= seq![ev]);
                let ghost raw = self.actions_by_pathver@;
                let ghost kv = key@;
                self.actions_by_pathver.push((key, group));
                assert(self.actions_by_pathver@ == raw.push((key, group)));
                assert(self@ =~= old_groups.push((kv, seq![ev])));
                proof {
                    assert(self@.drop_last() =~= old_groups);
                    lemma_providers_at(*self, old_groups.len() as int);
                    assert forall|k: Seq<char>| k != key@ implies #[trigger] self.providers(k) == old(self).providers(k) by {
                        lemma_providers_unique(*self, k);
                        lemma_providers_unique(*old(self), k);
                        if exists|j: int| 0 <= j < old_groups.len() && old_groups[j].0 == k {
                            let j = choose|j: int| 0 <= j < old_groups.len() && old_groups[j].0 == k;
                            assert(self@[j] == old_groups[j]);
                        } else {
                            assert forall|j: int| 0 <= j < self@.len() implies self@[j].0 != k by {
                                if j < old_groups.len() {
                                    assert(self@[j] == old_groups[j]);
                                }
                            }
                        }
                    }
                }
            },
        }
    }

    /// Adds every action of an announcement whose signature was verified,
    /// each joined with the instance that offers it; an unverified
    /// announcement adds nothing. Returns how many entries were added.
    pub fn insert_announcement(&mut self, packet: &AnnouncementPacket, verified: bool) -> (r: usize)
        requires
            old(self).wf(),
        ensures
            final(self).wf(),
            !verified ==> r == 0 && final(self)@ == old(self)@,
            verified ==> r == packet.body.actions@.len(),
            all_entries(final(self)@).len() == all_entries(old(self)@).len() + r,
            verified ==> forall|k: Seq<char>| #[trigger] final(self).providers(k) == old(self).providers(k) + keyed(
                announced_entries(packet.body@),
                k,
            ),
    {
        if !verified {
            return 0;
        }
        let ghost news = announced_entries(packet.body@);
        let mut i: usize = 0;
        proof {
            assert forall|k: Seq<char>| #[trigger] self.providers(k) == old(self).providers(k) + keyed(news.subrange(0, 0), k) by {
                assert(news.subrange(0, 0) =~= Seq::<ActionEntryView>::empty());
                assert(old(self).providers(k) + Seq::<ActionEntryView>::empty() =~= old(self).providers(k));
            }
        }
        while i < packet.body.actions.len()
            invariant
                self.wf(),
                i <= packet.body.actions@.len(),
                news == announced_entries(packet.body@),
                all_entries(self@).len() == all_entries(old(self)@).len() + i,
                forall|k: Seq<char>| #[trigger] self.providers(k) == old(self).providers(k) + keyed(news.subrange(0, i as int), k),
            decreases packet.body.actions@.len() - i,
        {
            let entry = ActionEntry {
                action: copy_action(&packet.body.actions[i]),
                service_info: packet.body.info.duplicate(),
                authorized: true,
            };
            let ghost ev = entry@;
            let ghost mid = *self;
            assert(ev == news[i as int]);
            self.add_entry(entry);
            proof {
                assert(news.subrange(0, i + 1).drop_last() =~= news.subrange(0, i as int));
                assert(news.subrange(0, i + 1).last() == ev);
                assert forall|k: Seq<char>| #[trigger] self.providers(k) == old(self).providers(k) + keyed(news.subrange(0, i + 1), k) by {
                    assert(mid.providers(k) == old(self).providers(k) + keyed(news.subrange(0, i as int), k));
                    if k == entry_key(ev) {
                        assert(old(self).providers(k) + keyed(news.subrange(0, i as int), k).push(ev)
                            =~= (old(self).providers(k) + keyed(news.subrange(0, i as int), k)).push(ev));
                    }
                }
            }
            i = i + 1;
        }
        assert(news.subrange(0, i as int) =~= news);
        i
    }

    /// Decodes one cache record and adds its actions when its signature is
    /// valid (which `signature_is_valid` grants every record); returns
    /// whether it was. A record that does not decode leaves
    /// the registry as it was.
    pub fn insert_record(&mut self, record: &str) -> (r: Result<bool, AnnouncementParseError>)
        requires
            old(self).wf(),
        ensures
            final(self).wf(),
            r is Err <==> record_body(record@) is None,
            record_body(record@) is Some ==> r == Ok::<bool, AnnouncementParseError>(true),
            r != Ok::<bool, AnnouncementParseError>(true) ==> final(self)@ == old(self)@,
            r == Ok::<bool, AnnouncementParseError>(true) ==> {
                let b = record_body(record@)->0;
                &&& all_entries(final(self)@).len() == all_entries(old(self)@).len() + b.actions.len()
                &&& forall|k: Seq<char>| #[trigger] final(self).providers(k) == old(self).providers(k) + keyed(
                    announced_entries(b),
                    k,
                )
            },
    {
        let packet = AnnouncementPacket::parse(record)?;
        assert(action_views(packet.body.actions@).len() == packet.body.actions@.len());
        let verified = packet.signature_is_valid();
        self.insert_announcement(&packet, verified);
        Ok(verified)
    }

    /// Every entry in the registry.
    pub fn actions_iter(&self) -> (r: Vec<&ActionEntry>)
        ensures
            r@.map_values(|e: &ActionEntry| e@) == all_entries(self@),
    {
        let mut out: Vec<&ActionEntry> = Vec::new();
        let mut i: usize = 0;
        assert(self@.subrange(0, 0) =~= Seq::<(Seq<char>, Seq<ActionEntryView>)>::empty());
        while i < self.actions_by_pathver.len()
            invariant
                i <= self@.len(),
                self@.len() == self.actions_by_pathver@.len(),
                out@.map_values(|e: &ActionEntry| e@) == all_entries(self@.subrange(0, i as int)),
            decreases self@.len() - i,
        {
            let group = &self.actions_by_pathver[i].1;
            let ghost before = out@.map_values(|e: &ActionEntry| e@);
            let mut k: usize = 0;
            while k < group.len()
                invariant
                    k <= group@.len(),
                    out@.map_values(|e: &ActionEntry| e@) == before + entry_views(group@).subrange(0, k as int),
                decreases group@.len() - k,
            {
                let ghost pre = out@;
                out.push(&group[k]);
                assert(out@ == pre.push(&group@[k as int]));
                assert(out@.map_values(|e: &ActionEntry| e@) =~= pre.map_values(|e: &ActionEntry| e@).push(group@[k as int]@));
                assert(out@.map_values(|e: &ActionEntry| e@) =~= before + entry_views(group@).subrange(0, k + 1));
                k = k + 1;
            }
            assert(self@.subrange(0, i + 1).drop_last() =~= self@.subrange(0, i as int));
            assert(entry_views(group@).subrange(0, group@.len() as int) =~= self@[i as int].1);
            i = i + 1;
        }
        assert(self@.subrange(0, self@.len() as int) =~= self@);
        out
    }

    /// The entries offered under `pathver`, if it has any.
    pub fn find_actions(&self, pathver: &str) -> (r: Option<Vec<&ActionEntry>>)
        requires
            self.wf(),
        ensures
            r is None <==> self.providers(pathver@).len() == 0,
            r matches Some(v) ==> v@.map_values(|e: &ActionEntry| e@) == self.providers(pathver@),
    {
        proof {
            lemma_providers_unique(*self, pathver@);
        }
        match self.index_of(pathver) {
            None => None,
            Some(i) => {
                proof {
                    lemma_providers_at(*self, i as int);
                }
                let group = &self.actions_by_pathver[i].1;
                let mut out: Vec<&ActionEntry> = Vec::new();
                let mut k: usize = 0;
                while k < group.len()
                    invariant
                        k <= group@.len(),
                        out@.map_values(|e: &ActionEntry| e@) == entry_views(group@).subrange(0, k as int),
                    decreases group@.len() - k,
                {
                    let ghost pre = out@;
                    out.push(&group[k]);
                    assert(out@ == pre.push(&group@[k as int]));
                    assert(out@.map_values(|e: &ActionEntry| e@) =~= pre.map_values(|e: &ActionEntry| e@).push(group@[k as int]@));
                    assert(out@.map_values(|e: &ActionEntry| e@) =~= entry_views(group@).subrange(0, k + 1));
                    k = k + 1;
                }
                assert(entry_views(group@).subrange(0, group@.len() as int) =~= self@[i as int].1);
                Some(out)
            },
        }
    }

    /// The provider of `pathver` that a draw `r` selects: the `r mod n`-th of
    /// its `n` providers.
    pub fn get_action_at(&self, pathver: &str, r: usize) -> (res: Option<&ActionEntry>)
        requires
            self.wf(),
        ensures
            res is None <==> self.providers(pathver@).len() == 0,
            res matches Some(e) ==> e@ == self.providers(pathver@)[r as int % self.providers(pathver@).len() as int]
                && entry_key(e@) == pathver@,
    {
        proof {
            lemma_providers_unique(*self, pathver@);
        }
        match self.index_of(pathver) {
            None => None,
            Some(i) => {
                proof {
                    lemma_providers_at(*self, i as int);
                }
                let group = &self.actions_by_pathver[i].1;
                let k = r % group.len();
                assert(entry_views(group@)[k as int] == group@[k as int]@);
                Some(&group[k])
            },
        }
    }

    /// A provider of `pathver` chosen at random, each as likely as any other.
    pub fn get_action(&self, pathver: &str) -> (res: Option<&ActionEntry>)
        requires
            self.wf(),
        ensures
            res is None <==> self.providers(pathver@).len() == 0,
            res matches Some(e) ==> self.providers(pathver@).contains(e@) && entry_key(e@) == pathver@,
    {
        let draw: usize = rand::random::<usize>();
        let res = self.get_action_at(pathver, draw);
        proof {
            if res is Some {
                let n = self.providers(pathver@).len() as int;
                assert(0 <= draw as int % n < n);
            }
        }
        res
    }
}

/// The key of an action.
pub fn pathver(action: &Action) -> (r: String)
    ensures
        r@ == pathver_of(action.path@, action.version),
{
    let mut digits: Vec<u8> = Vec::new();
    write_u64(&mut digits, action.version as u64);
    assert(digits@ =~= decimal(action.version as nat));
    let mut cs: Vec<char> = Vec::new();
    let mut i: usize = 0;
    while i < digits.len()
        invariant
            i <= digits@.len(),
            cs@ == digits@.subrange(0, i as int).map_values(|b: u8| b as char),
        decreases digits@.len() - i,
    {
        cs.push(digits[i] as char);
        assert(cs@ =~= digits@.subrange(0, i + 1).map_values(|b: u8| b as char));
        i = i + 1;
    }
    assert(digits@.subrange(0, digits@.len() as int) =~= digits@);
    let version = string_of(cs.as_slice());
    let mut key = action.path.clone();
    key.append("~");
    key.append(version.as_str());
    proof {
        reveal_strlit("~");
        assert("~"@ =~= seq!['~']);
    }
    key
}

proof fn lemma_providers_unique(r: ServiceRegistry, key: Seq<char>)
    requires
        r.wf(),
    ensures
        forall|i: int| 0 <= i < r@.len() && r@[i].0 == key ==> r.providers(key) == r@[i].1,
        (forall|i: int| 0 <= i < r@.len() ==> r@[i].0 != key) ==> r.providers(key) == Seq::<ActionEntryView>::empty(),
{
    assert forall|i: int| 0 <= i < r@.len() && r@[i].0 == key implies r.providers(key) == r@[i].1 by {
        let j = choose|j: int| 0 <= j < r@.len() && r@[j].0 == key;
        if i < j {
            assert(r@[i].0 != r@[j].0);
        } else if j < i {
            assert(r@[j].0 != r@[i].0);
        }
    }
}

proof fn lemma_providers_at(r: ServiceRegistry, i: int)
    requires
        r.wf(),
        0 <= i < r@.len(),
    ensures
        r.providers(r@[i].0) == r@[i].1,
        forall|k: int| 0 <= k < r@[i].1.len() ==> entry_key(#[trigger] r@[i].1[k]) == r@[i].0,
{
    lemma_providers_unique(r, r@[i].0);
}

proof fn lemma_all_entries_update(groups: Seq<(Seq<char>, Seq<ActionEntryView>)>, i: int, e: ActionEntryView)
    requires
        0 <= i < groups.len(),
    ensures
        all_entries(groups.update(i, (groups[i].0, groups[i].1.push(e)))).len() == all_entries(groups).len() + 1,
    decreases groups.len(),
{
    let updated = groups.update(i, (groups[i].0, groups[i].1.push(e)));
    if i == groups.len() - 1 {
        assert(updated.drop_last() =~= groups.drop_last());
    } else {
        assert(updated.drop_last() =~= groups.drop_last().update(i, (groups[i].0, groups[i].1.push(e))));
        lemma_all_entries_update(groups.drop_last(), i, e);
    }
}

} // verus!
