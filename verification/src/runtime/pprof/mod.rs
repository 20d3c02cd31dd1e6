//! Profiles: the legacy text form of count profiles, the CPU profile
//! and the profile.proto encoder.
pub mod proto;
pub mod cpu;
pub mod text;
pub mod gzip;
pub mod symbols;
pub mod wire;

use vstd::prelude::*;
use crate::runtime::pprof::cpu::{bytes_vec, u64s_vec};
use crate::runtime::pprof::text::{
    printCountProfile, count_profile_text, lex_lt, lex_less, lemma_lex_total, lemma_lex_trans, ProfileError,
};

verus! {

/// A named collection of stacks, each filed under the value (an
/// address) it was added for.
pub struct Profile {
    name: Vec<u8>,
    m: Vec<(usize, Vec<u64>)>,
}

/// What a profile holds: its name, and its entries in the order they
/// were added.
pub struct ProfileView {
    pub name: Seq<u8>,
    pub entries: Seq<(usize, Seq<u64>)>,
}

impl View for Profile {
    type V = ProfileView;

    closed spec fn view(&self) -> ProfileView {
        ProfileView {
            name: self.name@,
            entries: self.m@.map_values(|e: (usize, Vec<u64>)| (e.0, e.1@)),
        }
    }
}

/// The stacks of a profile's entries.
pub open spec fn entry_stacks(e: Seq<(usize, Seq<u64>)>) -> Seq<Seq<u64>> {
    e.map_values(|x: (usize, Seq<u64>)| x.1)
}

/// Some entry is filed under `value`.
pub open spec fn has_value(e: Seq<(usize, Seq<u64>)>, value: usize) -> bool {
    exists|k: int| 0 <= k < e.len() && #[trigger] e[k].0 == value
}

/// The stack `Add` files: the one given, or the lost-event PC alone.
pub open spec fn filed_stack(pcs: Seq<u64>, lost_pc: u64) -> Seq<u64> {
    if pcs.len() == 0 {
        seq![lost_pc]
    } else {
        pcs
    }
}

/// The function lost profiling events are put down to: its PC stands
/// in for a stack that could not be captured.
pub fn lostProfileEvent() {
}

impl Profile {
    /// `Profile.Name`.
    pub fn Name(&self) -> (r: Vec<u8>)
        ensures
            r@ == self@.name,
    {
        bytes_vec(&self.name)
    }

    /// `Profile.Count` — how many entries the profile holds.
    pub fn Count(&self) -> (r: i64)
        requires
            self@.entries.len() <= i64::MAX,
        ensures
            r == self@.entries.len(),
    {
        self.m.len() as i64
    }

    /// Some entry is filed under `value`.
    pub fn has_value(&self, value: usize) -> (r: bool)
        ensures
            r == has_value(self@.entries, value),
    {
        let mut i: usize = 0;
        while i < self.m.len()
            invariant
                i <= self.m.len(),
                forall|k: int| 0 <= k < i ==> #[trigger] self@.entries[k].0 != value,
            decreases self.m.len() - i,
        {
            if self.m[i].0 == value {
                assert(self@.entries[i as int].0 == value);
                return true;
            }
            i = i + 1;
        }
        false
    }

    /// `Profile.Add` — files the stack `pcs` (as captured for the
    /// caller) under `value`; an empty stack is filed as the PC of
    /// `lostProfileEvent`, `lost_pc`. A value is filed at most once.
    pub fn Add(&mut self, value: usize, pcs: Vec<u64>, lost_pc: u64)
        requires
            old(self)@.name.len() > 0,
            !has_value(old(self)@.entries, value),
        ensures
            final(self)@.name == old(self)@.name,
            final(self)@.entries == old(self)@.entries.push((value, filed_stack(pcs@, lost_pc))),
    {
        let stk = if pcs.len() == 0 {
            let mut v: Vec<u64> = Vec::new();
            v.push(lost_pc);
            v
        } else {
            pcs
        };
        proof {
            assert(stk@ =~= filed_stack(pcs@, lost_pc));
        }
        self.m.push((value, stk));
        assert(self@.entries =~= old(self)@.entries.push((value, filed_stack(pcs@, lost_pc))));
    }

    /// `Profile.Remove` — drops the entry filed under `value`, if any.
    pub fn Remove(&mut self, value: usize)
        ensures
            final(self)@.name == old(self)@.name,
            final(self)@.entries == old(self)@.entries.filter(|e: (usize, Seq<u64>)| e.0 != value),
    {
        let ghost old_e = old(self)@.entries;
        let mut kept: Vec<(usize, Vec<u64>)> = Vec::new();
        let mut i: usize = 0;
        while i < self.m.len()
            invariant
                i <= self.m.len(),
                *self == *old(self),
                old_e == self@.entries,
                kept@.map_values(|e: (usize, Vec<u64>)| (e.0, e.1@)) == old_e.take(i as int).filter(
                    |e: (usize, Seq<u64>)| e.0 != value,
                ),
            decreases self.m.len() - i,
        {
            let k = self.m[i].0;
            proof {
                assert(old_e.take(i + 1) =~= old_e.take(i as int).push(old_e[i as int]));
                old_e.take(i as int).lemma_filter_push(old_e[i as int], |e: (usize, Seq<u64>)| e.0 != value);
            }
            if k != value {
                let s = u64s_vec(&self.m[i].1);
                kept.push((k, s));
            }
            i = i + 1;
            assert(kept@.map_values(|e: (usize, Vec<u64>)| (e.0, e.1@)) =~= old_e.take(i as int).filter(
                |e: (usize, Seq<u64>)| e.0 != value,
            ));
        }
        assert(old_e.take(self.m.len() as int) =~= old_e);
        self.m = kept;
    }

    /// `Profile.WriteTo` — the profile as the legacy text of a count
    /// profile (`debug >= 1`); the protobuf form (`debug <= 0`) is
    /// refused.
    pub fn WriteTo(&self, debug: i64) -> (r: Result<Vec<u8>, ProfileError>)
        requires
            self@.name.len() > 0,
        ensures
            debug <= 0 ==> r == Err::<Vec<u8>, ProfileError>(ProfileError::ProtobufUnsupported),
            debug > 0 ==> (r matches Ok(out) && out@ == count_profile_text(
                self@.name,
                entry_stacks(self@.entries),
            )),
    {
        let mut all: Vec<Vec<u64>> = Vec::new();
        let mut i: usize = 0;
        while i < self.m.len()
            invariant
                i <= self.m.len(),
                all@.map_values(|x: Vec<u64>| x@) == entry_stacks(self@.entries).take(i as int),
            decreases self.m.len() - i,
        {
            let ghost a0 = all@;
            let v = u64s_vec(&self.m[i].1);
            all.push(v);
            assert(entry_stacks(self@.entries).take(i + 1) =~= entry_stacks(self@.entries).take(i as int).push(v@));
            assert(all@.map_values(|x: Vec<u64>| x@) =~= a0.map_values(|x: Vec<u64>| x@).push(v@));
            i = i + 1;
            assert(all@.map_values(|x: Vec<u64>| x@) =~= entry_stacks(self@.entries).take(i as int));
        }
        assert(entry_stacks(self@.entries).take(self.m.len() as int) =~= entry_stacks(self@.entries));
        printCountProfile(debug, &self.name, &all)
    }
}

/// The profiles known by name: at most one per name.
pub struct Registry {
    profiles: Vec<Profile>,
}

impl View for Registry {
    type V = Seq<ProfileView>;

    closed spec fn view(&self) -> Seq<ProfileView> {
        self.profiles@.map_values(|p: Profile| p@)
    }
}

/// No two profiles share a name.
pub open spec fn names_unique(r: Seq<ProfileView>) -> bool {
    forall|a: int, b: int| 0 <= a < b < r.len() ==> r[a].name != r[b].name
}

/// The index of the profile named `name`, if there is one.
pub open spec fn index_of_name(r: Seq<ProfileView>, name: Seq<u8>) -> Option<int> {
    if exists|k: int| 0 <= k < r.len() && #[trigger] r[k].name == name {
        Some(choose|k: int| 0 <= k < r.len() && #[trigger] r[k].name == name)
    } else {
        None
    }
}

impl Registry {
    /// A registry with no profile in it.
    pub fn new() -> (r: Self)
        ensures
            r@ == Seq::<ProfileView>::empty(),
    {
        let r = Registry { profiles: Vec::new() };
        assert(r@ =~= Seq::<ProfileView>::empty());
        r
    }

    /// The profile at `i`.
    pub fn profile(&self, i: usize) -> (p: &Profile)
        requires
            i < self@.len(),
        ensures
            p@ == self@[i as int],
    {
        &self.profiles[i]
    }

    /// Adds `pcs` to the profile at `i`, as `Profile::Add` does.
    pub fn add_to(&mut self, i: usize, value: usize, pcs: Vec<u64>, lost_pc: u64)
        requires
            i < old(self)@.len(),
            !has_value(old(self)@[i as int].entries, value),
            old(self)@[i as int].name.len() > 0,
        ensures
            final(self)@ == old(self)@.update(i as int, ProfileView {
                name: old(self)@[i as int].name,
                entries: old(self)@[i as int].entries.push((value, filed_stack(pcs@, lost_pc))),
            }),
    {
        let mut p = self.profiles.remove(i);
        p.Add(value, pcs, lost_pc);
        self.profiles.insert(i, p);
        assert(self@ =~= old(self)@.update(i as int, ProfileView {
            name: old(self)@[i as int].name,
            entries: old(self)@[i as int].entries.push((value, filed_stack(pcs@, lost_pc))),
        }));
    }

    /// Removes `value`'s entry from the profile at `i`, as
    /// `Profile::Remove` does.
    pub fn remove_from(&mut self, i: usize, value: usize)
        requires
            i < old(self)@.len(),
        ensures
            final(self)@ == old(self)@.update(i as int, ProfileView {
                name: old(self)@[i as int].name,
                entries: old(self)@[i as int].entries.filter(|e: (usize, Seq<u64>)| e.0 != value),
            }),
    {
        let mut p = self.profiles.remove(i);
        p.Remove(value);
        self.profiles.insert(i, p);
        assert(self@ =~= old(self)@.update(i as int, ProfileView {
            name: old(self)@[i as int].name,
            entries: old(self)@[i as int].entries.filter(|e: (usize, Seq<u64>)| e.0 != value),
        }));
    }
}

/// `a` and `b` hold the same bytes.
fn bytes_equal(a: &[u8], b: &[u8]) -> (r: bool)
    ensures
        r == (a@ == b@),
{
    if a.len() != b.len() {
        return false;
    }
    let mut i: usize = 0;
    while i < a.len()
        invariant
            a@.len() == b@.len(),
            i <= a@.len(),
            forall|k: int| 0 <= k < i ==> a@[k] == b@[k],
        decreases a@.len() - i,
    {
        if a[i] != b[i] {
            return false;
        }
        i = i + 1;
    }
    assert(a@ =~= b@);
    true
}

/// `Lookup` — the index of the profile named `name`, or `None`.
pub fn Lookup(reg: &Registry, name: &[u8]) -> (r: Option<usize>)
    requires
        names_unique(reg@),
    ensures
        match index_of_name(reg@, name@) {
            Some(k) => r == Some(k as usize),
            None => r is None,
        },
{
    let mut i: usize = 0;
    while i < reg.profiles.len()
        invariant
            i <= reg@.len(),
            names_unique(reg@),
            forall|k: int| 0 <= k < i ==> #[trigger] reg@[k].name != name@,
        decreases reg@.len() - i,
    {
        if bytes_equal(&reg.profiles[i].name, name) {
            proof {
                assert(reg@[i as int].name == name@);
                let k = choose|k: int| 0 <= k < reg@.len() && #[trigger] reg@[k].name == name@;
                if k != i {
                    if k < i {
                        assert(reg@[k].name != reg@[i as int].name);
                    } else {
                        assert(reg@[i as int].name != reg@[k].name);
                    }
                }
            }
            return Some(i);
        }
        i = i + 1;
    }
    None
}

/// `NewProfile` — registers an empty profile named `name` and returns
/// its index. The name must be new and not empty.
pub fn NewProfile(reg: &mut Registry, name: Vec<u8>) -> (i: usize)
    requires
        names_unique(old(reg)@),
        name@.len() > 0,
        index_of_name(old(reg)@, name@) is None,
    ensures
        names_unique(final(reg)@),
        i == old(reg)@.len(),
        final(reg)@ == old(reg)@.push(ProfileView { name: name@, entries: Seq::empty() }),
{
    let p = Profile { name, m: Vec::new() };
    assert(p@.entries =~= Seq::<(usize, Seq<u64>)>::empty());
    let i = reg.profiles.len();
    reg.profiles.push(p);
    assert(reg@ =~= old(reg)@.push(ProfileView { name: name@, entries: Seq::empty() }));
    proof {
        assert forall|a: int, b: int| 0 <= a < b < reg@.len() implies reg@[a].name != reg@[b].name by {
            if b == i {
                if reg@[a].name == name@ {
                    assert(old(reg)@[a].name == name@);
                }
            }
        }
    }
    i
}

/// `Profiles` — the indices of all profiles, ordered by name.
pub fn Profiles(reg: &Registry) -> (r: Vec<usize>)
    requires
        names_unique(reg@),
    ensures
        r@.len() == reg@.len(),
        forall|k: usize| k < reg@.len() ==> #[trigger] r@.contains(k),
        forall|x: int, y: int| 0 <= x < y < r@.len() ==> lex_lt(
            reg@[r@[x] as int].name,
            reg@[r@[y] as int].name,
        ),
{
    let mut r: Vec<usize> = Vec::new();
    let mut k: usize = 0;
    while k < reg.profiles.len()
        invariant
            k <= reg@.len(),
            names_unique(reg@),
            r@.len() == k,
            forall|q: int| 0 <= q < r@.len() ==> #[trigger] r@[q] < k,
            forall|j: usize| j < k ==> #[trigger] r@.contains(j),
            forall|x: int, y: int| 0 <= x < y < r@.len() ==> lex_lt(
                reg@[r@[x] as int].name,
                reg@[r@[y] as int].name,
            ),
        decreases reg@.len() - k,
    {
        let mut p: usize = 0;
        while p < r.len()
            invariant
                p <= r@.len(),
                k < reg@.len(),
                forall|q: int| 0 <= q < r@.len() ==> #[trigger] r@[q] < k,
                forall|q: int| 0 <= q < p ==> !lex_lt(reg@[k as int].name, #[trigger] reg@[r@[q] as int].name),
            ensures
                p <= r@.len(),
                forall|q: int| 0 <= q < p ==> !lex_lt(reg@[k as int].name, #[trigger] reg@[r@[q] as int].name),
                p < r@.len() ==> lex_lt(reg@[k as int].name, reg@[r@[p as int] as int].name),
            decreases r@.len() - p,
        {
            let less = lex_less(&reg.profiles[k].name, &reg.profiles[r[p]].name);
            if less {
                break;
            }
            p = p + 1;
        }
        let ghost r0 = r@;
        proof {
            let nk = reg@[k as int].name;
            assert forall|q: int| 0 <= q < r0.len() implies reg@[r0[q] as int].name != nk by {
                assert(r0[q] < k);
            }
            assert forall|q: int| 0 <= q < p implies #[trigger] lex_lt(reg@[r0[q] as int].name, nk) by {
                lemma_lex_total(reg@[r0[q] as int].name, nk);
            }
            assert forall|q: int| p < q < r0.len() implies #[trigger] lex_lt(nk, reg@[r0[q] as int].name) by {
                lemma_lex_trans(nk, reg@[r0[p as int] as int].name, reg@[r0[q] as int].name);
            }
        }
        r.insert(p, k);
        proof {
            assert forall|j: usize| j < k + 1 implies #[trigger] r@.contains(j) by {
                if j == k {
                    assert(r@[p as int] == k);
                } else {
                    assert(r0.contains(j));
                    let q = choose|q: int| 0 <= q < r0.len() && r0[q] == j;
                    if q < p {
                        assert(r@[q] == j);
                    } else {
                        assert(r@[q + 1] == j);
                    }
                }
            }
            assert forall|x: int, y: int| 0 <= x < y < r@.len() implies lex_lt(
                reg@[r@[x] as int].name,
                reg@[r@[y] as int].name,
            ) by {
                let nk = reg@[k as int].name;
                if y < p {
                    assert(r@[x] == r0[x] && r@[y] == r0[y]);
                } else if y == p {
                    assert(r@[x] == r0[x]);
                    assert(lex_lt(reg@[r0[x] as int].name, nk));
                } else if x < p {
                    assert(r@[x] == r0[x] && r@[y] == r0[y - 1]);
                } else if x == p {
                    assert(r@[y] == r0[y - 1]);
                    assert(lex_lt(nk, reg@[r0[y - 1] as int].name));
                } else {
                    assert(r@[x] == r0[x - 1] && r@[y] == r0[y - 1]);
                }
            }
        }
        k = k + 1;
    }
    r
}

} // verus!
