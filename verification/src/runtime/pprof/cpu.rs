//! The CPU profile: turns the sampler's stacks into a profile.proto
//! message.
//!
//! Each distinct PC becomes one location, numbered from 1 in the order
//! the PCs first appear; each distinct stack becomes one sample whose
//! values are `[count, count * period]`, Go's `samples/count` and
//! `cpu/nanoseconds`. A PC whose symbol has a name gets one line, in a
//! function shared by every PC with that name.
use vstd::prelude::*;
use crate::runtime::pprof::proto::{Function, Line, Location, Profile, Sample, ValueType};
use crate::runtime::symbolize::elf::bytes_equal;

verus! {

/// What symbolization found for one PC.
pub struct SymFrame {
    pub pc: u64,
    pub function: Vec<u8>,
    pub file: Vec<u8>,
    pub line: i64,
}

/// The first index of `x` in `s` from `i` on, or `s.len()`.
pub open spec fn first_at<T>(s: Seq<T>, x: T, i: int) -> int
    decreases s.len() - i,
{
    if i < 0 || i >= s.len() {
        s.len() as int
    } else if s[i] == x {
        i
    } else {
        first_at(s, x, i + 1)
    }
}

/// The PC table after the PCs of `stk`, and the stack as location ids
/// (1-based indexes into the table).
pub open spec fn intern_stack(pcs: Seq<u64>, stk: Seq<u64>) -> (Seq<u64>, Seq<u64>)
    decreases stk.len(),
{
    if stk.len() == 0 {
        (pcs, Seq::empty())
    } else {
        let (p1, ids) = intern_stack(pcs, stk.drop_last());
        let pc = stk.last();
        let k = first_at(p1, pc, 0);
        if k < p1.len() {
            (p1, ids.push((k + 1) as u64))
        } else {
            (p1.push(pc), ids.push((p1.len() + 1) as u64))
        }
    }
}

/// The distinct PCs of `stacks` in order of first appearance, and the
/// distinct id lists with how often each occurs, in the same order.
pub open spec fn aggregate(stacks: Seq<Seq<u64>>) -> (Seq<u64>, Seq<Seq<u64>>, Seq<int>)
    decreases stacks.len(),
{
    if stacks.len() == 0 {
        (Seq::empty(), Seq::empty(), Seq::empty())
    } else {
        let (pcs, keys, counts) = aggregate(stacks.drop_last());
        let (p2, ids) = intern_stack(pcs, stacks.last());
        let k = first_at(keys, ids, 0);
        if k < keys.len() {
            (p2, keys, counts.update(k, counts[k] + 1))
        } else {
            (p2, keys.push(ids), counts.push(1))
        }
    }
}

/// The symbol of `pc`: the first frame for it that has a name.
pub open spec fn sym_of(syms: Seq<SymFrame>, pc: u64, i: int) -> Option<SymFrame>
    decreases syms.len() - i,
{
    if i < 0 || i >= syms.len() {
        None
    } else if syms[i].pc == pc {
        if syms[i].function@.len() > 0 {
            Some(syms[i])
        } else {
            None
        }
    } else {
        sym_of(syms, pc, i + 1)
    }
}

/// The functions named by the symbols of `pcs`, in order of first
/// appearance: name and file of each.
pub open spec fn functions_of(pcs: Seq<u64>, syms: Seq<SymFrame>) -> (Seq<Seq<u8>>, Seq<Seq<u8>>)
    decreases pcs.len(),
{
    if pcs.len() == 0 {
        (Seq::empty(), Seq::empty())
    } else {
        let (names, files) = functions_of(pcs.drop_last(), syms);
        match sym_of(syms, pcs.last(), 0) {
            Some(f) => if first_at(names, f.function@, 0) < names.len() {
                (names, files)
            } else {
                (names.push(f.function@), files.push(f.file@))
            },
            None => (names, files),
        }
    }
}

/// `samples/count`, `cpu/nanoseconds`.
pub open spec fn samples_str() -> Seq<u8> {
    seq![115u8, 97u8, 109u8, 112u8, 108u8, 101u8, 115u8]
}

pub open spec fn count_str() -> Seq<u8> {
    seq![99u8, 111u8, 117u8, 110u8, 116u8]
}

pub open spec fn cpu_str() -> Seq<u8> {
    seq![99u8, 112u8, 117u8]
}

pub open spec fn nanoseconds_str() -> Seq<u8> {
    seq![110u8, 97u8, 110u8, 111u8, 115u8, 101u8, 99u8, 111u8, 110u8, 100u8, 115u8]
}

/// `p` is the CPU profile of `stacks`, sampled every `period` ns between
/// `start_ns` and `stop_ns`, with `syms` naming the PCs.
pub open spec fn is_cpu_profile(
    p: Profile,
    start_ns: i64,
    stop_ns: i64,
    period: i64,
    stacks: Seq<Seq<u64>>,
    syms: Seq<SymFrame>,
) -> bool {
    let (pcs, keys, counts) = aggregate(stacks);
    let (names, files) = functions_of(pcs, syms);
    &&& p.sample_type@.len() == 2
    &&& p.sample_type@[0].ty@ == samples_str() && p.sample_type@[0].unit@ == count_str()
    &&& p.sample_type@[1].ty@ == cpu_str() && p.sample_type@[1].unit@ == nanoseconds_str()
    &&& p.period_type matches Some(pt) && pt.ty@ == cpu_str() && pt.unit@ == nanoseconds_str()
    &&& p.period == period
    &&& p.time_nanos == start_ns
    &&& p.duration_nanos == stop_ns - start_ns
    &&& p.default_sample_type@.len() == 0
    &&& p.location@.len() == pcs.len()
    &&& forall|i: int|
        0 <= i < pcs.len() ==> {
            let l = #[trigger] p.location@[i];
            &&& l.id == i + 1
            &&& l.address == pcs[i]
            &&& match sym_of(syms, pcs[i], 0) {
                Some(f) => l.line@.len() == 1 && l.line@[0].function_id == first_at(
                    names,
                    f.function@,
                    0,
                ) + 1 && l.line@[0].line == f.line,
                None => l.line@.len() == 0,
            }
        }
    &&& p.function@.len() == names.len()
    &&& forall|i: int|
        0 <= i < names.len() ==> {
            let f = #[trigger] p.function@[i];
            &&& f.id == i + 1
            &&& f.name@ == names[i]
            &&& f.system_name@ == names[i]
            &&& f.filename@ == files[i]
            &&& f.start_line == 0
        }
    &&& p.sample@.len() == keys.len()
    &&& forall|i: int|
        0 <= i < keys.len() ==> {
            let s = #[trigger] p.sample@[i];
            &&& s.location_id@ == keys[i]
            &&& s.value@ == seq![counts[i] as i64, (counts[i] * period) as i64]
        }
}

/// The first index of `x` in `s`, or `s.len()`.
fn find_u64(s: &Vec<u64>, x: u64) -> (k: usize)
    ensures
        k == first_at(s@, x, 0),
{
    let mut i: usize = 0;
    while i < s.len()
        invariant
            i <= s@.len(),
            first_at(s@, x, 0) == first_at(s@, x, i as int),
        decreases s@.len() - i,
    {
        if s[i] == x {
            return i;
        }
        i = i + 1;
    }
    i
}

/// `a` and `b` hold the same values.
pub(crate) fn u64s_equal(a: &[u64], b: &[u64]) -> (r: bool)
    ensures
        r == (a@ == b@),
{
    if a.len() != b.len() {
        return false;
    }
    let mut i: usize = 0;
    while i < a.len()
        invariant
            a@.len() == b@.len(),
            i <= a@.len(),
            forall|k: int| 0 <= k < i ==> a@[k] == b@[k],
        decreases a@.len() - i,
    {
        if a[i] != b[i] {
            return false;
        }
        i = i + 1;
    }
    assert(a@ =~= b@);
    true
}

/// The contents of a list of id lists.
pub open spec fn lists(v: Seq<Vec<u64>>) -> Seq<Seq<u64>> {
    v.map_values(|x: Vec<u64>| x@)
}

/// The first index of the list `x` in `keys`, or `keys.len()`.
fn find_key(keys: &Vec<Vec<u64>>, x: &Vec<u64>) -> (k: usize)
    ensures
        k == first_at(lists(keys@), x@, 0),
{
    let mut i: usize = 0;
    while i < keys.len()
        invariant
            i <= keys@.len(),
            first_at(lists(keys@), x@, 0) == first_at(lists(keys@), x@, i as int),
        decreases keys@.len() - i,
    {
        if u64s_equal(keys[i].as_slice(), x.as_slice()) {
            return i;
        }
        i = i + 1;
    }
    i
}

/// Adds the PCs of `stk` to the table; returns the stack as location
/// ids.
fn intern_stack_exec(pcs: &mut Vec<u64>, stk: &[u64]) -> (ids: Vec<u64>)
    ensures
        (final(pcs)@, ids@) == intern_stack(old(pcs)@, stk@),
{
    let mut ids: Vec<u64> = Vec::new();
    let mut i: usize = 0;
    assert(stk@.subrange(0, 0) =~= Seq::<u64>::empty());
    while i < stk.len()
        invariant
            i <= stk@.len(),
            (pcs@, ids@) == intern_stack(old(pcs)@, stk@.subrange(0, i as int)),
        decreases stk@.len() - i,
    {
        let pc = stk[i];
        let k = find_u64(pcs, pc);
        proof {
            assert(stk@.subrange(0, i + 1).drop_last() =~= stk@.subrange(0, i as int));
            lemma_first_at_bound(pcs@, pc, 0);
        }
        if k < pcs.len() {
            ids.push((k + 1) as u64);
        } else {
            pcs.push(pc);
            ids.push(pcs.len() as u64);
        }
        i = i + 1;
    }
    assert(stk@.subrange(0, stk@.len() as int) =~= stk@);
    ids
}

pub proof fn lemma_first_at_bound<T>(s: Seq<T>, x: T, i: int)
    requires
        0 <= i,
    ensures
        i <= first_at(s, x, i) <= s.len() || first_at(s, x, i) == s.len(),
        first_at(s, x, i) < s.len() ==> s[first_at(s, x, i)] == x,
        0 <= first_at(s, x, i) <= s.len(),
    decreases s.len() - i,
{
    if i < s.len() && s[i] != x {
        lemma_first_at_bound(s, x, i + 1);
    }
}

/// The distinct PCs, the distinct stacks as id lists, and how often
/// each stack occurs, as `aggregate` says.
fn aggregate_exec(stacks: &[Vec<u64>]) -> (r: (Vec<u64>, Vec<Vec<u64>>, Vec<i64>))
    requires
        stacks@.len() <= i64::MAX,
    ensures
        (r.0@, lists(r.1@), r.2@.map_values(|c: i64| c as int)) == aggregate(lists(stacks@)),
        forall|k: int| 0 <= k < r.2@.len() ==> 1 <= #[trigger] r.2@[k] <= stacks@.len(),
        r.1@.len() == r.2@.len(),
{
    let mut pcs: Vec<u64> = Vec::new();
    let mut keys: Vec<Vec<u64>> = Vec::new();
    let mut counts: Vec<i64> = Vec::new();
    let mut i: usize = 0;
    assert(lists(stacks@).subrange(0, 0) =~= Seq::<Seq<u64>>::empty());
    assert(lists(keys@) =~= Seq::<Seq<u64>>::empty());
    assert(counts@.map_values(|c: i64| c as int) =~= Seq::<int>::empty());
    while i < stacks.len()
        invariant
            i <= stacks@.len(),
            stacks@.len() <= i64::MAX,
            keys@.len() == counts@.len(),
            (pcs@, lists(keys@), counts@.map_values(|c: i64| c as int)) == aggregate(
                lists(stacks@).subrange(0, i as int),
            ),
            forall|k: int| 0 <= k < counts@.len() ==> 1 <= #[trigger] counts@[k] <= i,
        decreases stacks@.len() - i,
    {
        let ghost before = (pcs@, lists(keys@), counts@.map_values(|c: i64| c as int));
        let ids = intern_stack_exec(&mut pcs, stacks[i].as_slice());
        let k = find_key(&keys, &ids);
        proof {
            assert(lists(stacks@).subrange(0, i + 1).drop_last() =~= lists(stacks@).subrange(
                0,
                i as int,
            ));
            assert(lists(stacks@).subrange(0, i + 1).last() == stacks@[i as int]@);
            lemma_first_at_bound(lists(keys@), ids@, 0);
        }
        if k < keys.len() {
            let c = counts[k];
            counts.set(k, c + 1);
            assert(counts@.map_values(|c: i64| c as int) =~= before.2.update(k as int, before.2[k as int] + 1));
        } else {
            let ghost kb = lists(keys@);
            keys.push(ids);
            counts.push(1);
            assert(lists(keys@) =~= before.1.push(intern_stack(before.0, stacks@[i as int]@).1));
            assert(counts@.map_values(|c: i64| c as int) =~= before.2.push(1));
        }
        i = i + 1;
    }
    assert(lists(stacks@).subrange(0, stacks@.len() as int) =~= lists(stacks@));
    (pcs, keys, counts)
}


/// A copy of `s`.
pub(crate) fn bytes_vec(s: &[u8]) -> (v: Vec<u8>)
    ensures
        v@ == s@,
{
    let mut v: Vec<u8> = Vec::new();
    let mut i: usize = 0;
    while i < s.len()
        invariant
            i <= s@.len(),
            v@ == s@.subrange(0, i as int),
        decreases s@.len() - i,
    {
        v.push(s[i]);
        i = i + 1;
        assert(v@ =~= s@.subrange(0, i as int));
    }
    assert(s@.subrange(0, s@.len() as int) =~= s@);
    v
}

/// The index of the symbol of `pc`, as `sym_of` says.
fn sym_index(syms: &[SymFrame], pc: u64) -> (r: Option<usize>)
    ensures
        match sym_of(syms@, pc, 0) {
            Some(f) => r matches Some(k) && k < syms@.len() && syms@[k as int] == f,
            None => r is None,
        },
{
    let mut i: usize = 0;
    while i < syms.len()
        invariant
            i <= syms@.len(),
            sym_of(syms@, pc, 0) == sym_of(syms@, pc, i as int),
        decreases syms@.len() - i,
    {
        if syms[i].pc == pc {
            if syms[i].function.len() > 0 {
                return Some(i);
            }
            return None;
        }
        i = i + 1;
    }
    None
}

pub proof fn lemma_first_at_push<T>(s: Seq<T>, x: T, y: T, i: int)
    requires
        0 <= i,
        first_at(s, y, i) < s.len(),
    ensures
        first_at(s.push(x), y, i) == first_at(s, y, i),
    decreases s.len() - i,
{
    if i < s.len() && s[i] != y {
        lemma_first_at_push(s, x, y, i + 1);
    }
}

pub proof fn lemma_first_at_push_new<T>(s: Seq<T>, x: T, i: int)
    requires
        0 <= i <= s.len(),
        first_at(s, x, i) == s.len(),
    ensures
        first_at(s.push(x), x, i) == s.len(),
    decreases s.len() - i,
{
    if i < s.len() {
        lemma_first_at_push_new(s, x, i + 1);
    }
}

/// `loc` is the location of `pc`, numbered `id`, with its line naming
/// a function of `names`.
pub open spec fn loc_ok(loc: Location, id: int, pc: u64, syms: Seq<SymFrame>, names: Seq<Seq<u8>>) -> bool {
    &&& loc.id == id
    &&& loc.address == pc
    &&& match sym_of(syms, pc, 0) {
        Some(f) => loc.line@.len() == 1 && loc.line@[0].function_id == first_at(names, f.function@, 0)
            + 1 && loc.line@[0].line == f.line && first_at(names, f.function@, 0) < names.len(),
        None => loc.line@.len() == 0,
    }
}

pub proof fn lemma_loc_ok_push(loc: Location, id: int, pc: u64, syms: Seq<SymFrame>, names: Seq<Seq<u8>>, x: Seq<u8>)
    requires
        loc_ok(loc, id, pc, syms, names),
    ensures
        loc_ok(loc, id, pc, syms, names.push(x)),
{
    match sym_of(syms, pc, 0) {
        Some(f) => {
            lemma_first_at_push(names, x, f.function@, 0);
        },
        None => {},
    }
}

/// The name, system name and file of each function, as byte strings.
pub open spec fn fn_names(f: Seq<Function>) -> Seq<Seq<u8>> {
    f.map_values(|x: Function| x.name@)
}

/// The index of the function named `name`, or `fs.len()`.
fn find_function(fs: &Vec<Function>, name: &[u8]) -> (j: usize)
    ensures
        j == first_at(fn_names(fs@), name@, 0),
{
    let mut j: usize = 0;
    while j < fs.len()
        invariant
            j <= fs@.len(),
            first_at(fn_names(fs@), name@, 0) == first_at(fn_names(fs@), name@, j as int),
        decreases fs@.len() - j,
    {
        if bytes_equal(fs[j].name.as_slice(), name) {
            return j;
        }
        j = j + 1;
    }
    j
}

/// A copy of `s`.
pub(crate) fn u64s_vec(s: &[u64]) -> (v: Vec<u64>)
    ensures
        v@ == s@,
{
    let mut v: Vec<u64> = Vec::new();
    let mut i: usize = 0;
    while i < s.len()
        invariant
            i <= s@.len(),
            v@ == s@.subrange(0, i as int),
        decreases s@.len() - i,
    {
        v.push(s[i]);
        i = i + 1;
        assert(v@ =~= s@.subrange(0, i as int));
    }
    assert(s@.subrange(0, s@.len() as int) =~= s@);
    v
}

/// The CPU profile of `stacks` (the sampler's stacks, leaf first),
/// sampled every `period` ns from `start_ns` to `stop_ns`, with `syms`
/// naming the PCs, as `is_cpu_profile` says.
pub fn build_cpu_profile(
    start_ns: i64,
    stop_ns: i64,
    period: i64,
    stacks: &[Vec<u64>],
    syms: &[SymFrame],
) -> (p: Profile)
    requires
        stacks@.len() <= i64::MAX,
        0 <= period,
        stacks@.len() * period <= i64::MAX,
        i64::MIN <= stop_ns - start_ns <= i64::MAX,
    ensures
        is_cpu_profile(p, start_ns, stop_ns, period, lists(stacks@), syms@),
{
    let mut p = Profile::new();
    p.sample_type.push(
        ValueType {
            ty: bytes_vec(&[115u8, 97u8, 109u8, 112u8, 108u8, 101u8, 115u8]),
            unit: bytes_vec(&[99u8, 111u8, 117u8, 110u8, 116u8]),
        },
    );
    p.sample_type.push(
        ValueType {
            ty: bytes_vec(&[99u8, 112u8, 117u8]),
            unit: bytes_vec(&[110u8, 97u8, 110u8, 111u8, 115u8, 101u8, 99u8, 111u8, 110u8, 100u8, 115u8]),
        },
    );
    assert([115u8, 97u8, 109u8, 112u8, 108u8, 101u8, 115u8]@ =~= samples_str());
    assert([99u8, 111u8, 117u8, 110u8, 116u8]@ =~= count_str());
    assert([99u8, 112u8, 117u8]@ =~= cpu_str());
    assert([110u8, 97u8, 110u8, 111u8, 115u8, 101u8, 99u8, 111u8, 110u8, 100u8, 115u8]@ =~= nanoseconds_str());
    p.period_type = Some(
        ValueType {
            ty: bytes_vec(&[99u8, 112u8, 117u8]),
            unit: bytes_vec(&[110u8, 97u8, 110u8, 111u8, 115u8, 101u8, 99u8, 111u8, 110u8, 100u8, 115u8]),
        },
    );
    p.period = period;
    p.time_nanos = start_ns;
    p.duration_nanos = stop_ns - start_ns;
    let (pcs, keys, counts) = aggregate_exec(stacks);
    let ghost agg = aggregate(lists(stacks@));
    let mut i: usize = 0;
    assert(functions_of(pcs@.subrange(0, 0), syms@) == (Seq::<Seq<u8>>::empty(), Seq::<Seq<u8>>::empty()));
    while i < pcs.len()
        invariant
            i <= pcs@.len(),
            pcs@ == agg.0,
            p.sample_type@.len() == 2,
            p.sample_type@[0].ty@ == samples_str() && p.sample_type@[0].unit@ == count_str(),
            p.sample_type@[1].ty@ == cpu_str() && p.sample_type@[1].unit@ == nanoseconds_str(),
            p.period_type matches Some(pt) && pt.ty@ == cpu_str() && pt.unit@ == nanoseconds_str(),
            p.period == period,
            p.time_nanos == start_ns,
            p.duration_nanos == stop_ns - start_ns,
            p.default_sample_type@.len() == 0,
            p.sample@.len() == 0,
            p.location@.len() == i,
            p.function@.len() == functions_of(pcs@.subrange(0, i as int), syms@).0.len(),
            fn_names(p.function@) == functions_of(pcs@.subrange(0, i as int), syms@).0,
            forall|j: int|
                0 <= j < p.function@.len() ==> {
                    let f = #[trigger] p.function@[j];
                    &&& f.id == j + 1
                    &&& f.name@ == functions_of(pcs@.subrange(0, i as int), syms@).0[j]
                    &&& f.system_name@ == f.name@
                    &&& f.filename@ == functions_of(pcs@.subrange(0, i as int), syms@).1[j]
                    &&& f.start_line == 0
                },
            functions_of(pcs@.subrange(0, i as int), syms@).0.len() == functions_of(
                pcs@.subrange(0, i as int),
                syms@,
            ).1.len(),
            forall|l: int|
                0 <= l < i ==> loc_ok(#[trigger] p.location@[l], l + 1, pcs@[l], syms@, fn_names(p.function@)),
            p.function@.len() <= i,
            (pcs@, lists(keys@), counts@.map_values(|c: i64| c as int)) == agg,
            agg == aggregate(lists(stacks@)),
            keys@.len() == counts@.len(),
            forall|q: int| 0 <= q < counts@.len() ==> 1 <= #[trigger] counts@[q] <= stacks@.len(),
            0 <= period,
            stacks@.len() * period <= i64::MAX,
        decreases pcs@.len() - i,
    {
        let pc = pcs[i];
        let ghost names0 = fn_names(p.function@);
        let ghost fo = functions_of(pcs@.subrange(0, i as int), syms@);
        let ghost fo1 = functions_of(pcs@.subrange(0, i + 1), syms@);
        proof {
            assert(pcs@.subrange(0, i + 1).drop_last() =~= pcs@.subrange(0, i as int));
        }
        let mut loc = Location { id: (i + 1) as u64, address: pc, line: Vec::new() };
        let ghost fs0 = p.function@;
        match sym_index(syms, pc) {
            Some(k) => {
                let f = &syms[k];
                let j = find_function(&p.function, f.function.as_slice());
                proof {
                    lemma_first_at_bound(names0, f.function@, 0);
                }
                let fid: u64 = if j < p.function.len() {
                    (j + 1) as u64
                } else {
                    let id = (p.function.len() + 1) as u64;
                    p.function.push(
                        Function {
                            id,
                            name: bytes_vec(f.function.as_slice()),
                            system_name: bytes_vec(f.function.as_slice()),
                            filename: bytes_vec(f.file.as_slice()),
                            start_line: 0,
                        },
                    );
                    proof {
                        assert(fn_names(p.function@) =~= names0.push(f.function@));
                        lemma_first_at_push_new(names0, f.function@, 0);
                        assert forall|l: int| 0 <= l < i implies loc_ok(
                            #[trigger] p.location@[l],
                            l + 1,
                            pcs@[l],
                            syms@,
                            fn_names(p.function@),
                        ) by {
                            lemma_loc_ok_push(p.location@[l], l + 1, pcs@[l], syms@, names0, f.function@);
                        }
                    }
                    id
                };
                loc.line.push(Line { function_id: fid, line: f.line });
                proof {
                    assert(fn_names(p.function@) == fo1.0);
                }
            },
            None => {},
        }
        p.location.push(loc);
        i = i + 1;
    }
    assert(pcs@.subrange(0, pcs@.len() as int) =~= pcs@);
    let mut k: usize = 0;
    while k < keys.len()
        invariant
            k <= keys@.len(),
            keys@.len() == counts@.len(),
            (pcs@, lists(keys@), counts@.map_values(|c: i64| c as int)) == agg,
            agg == aggregate(lists(stacks@)),
            forall|q: int| 0 <= q < counts@.len() ==> 1 <= #[trigger] counts@[q] <= stacks@.len(),
            0 <= period,
            stacks@.len() * period <= i64::MAX,
            p.sample@.len() == k,
            forall|q: int|
                0 <= q < k ==> {
                    let smp = #[trigger] p.sample@[q];
                    &&& smp.location_id@ == agg.1[q]
                    &&& smp.value@ == seq![agg.2[q] as i64, (agg.2[q] * period) as i64]
                },
            p.sample_type@.len() == 2,
            p.sample_type@[0].ty@ == samples_str() && p.sample_type@[0].unit@ == count_str(),
            p.sample_type@[1].ty@ == cpu_str() && p.sample_type@[1].unit@ == nanoseconds_str(),
            p.period_type matches Some(pt) && pt.ty@ == cpu_str() && pt.unit@ == nanoseconds_str(),
            p.period == period,
            p.time_nanos == start_ns,
            p.duration_nanos == stop_ns - start_ns,
            p.default_sample_type@.len() == 0,
            p.location@.len() == pcs@.len(),
            p.function@.len() == functions_of(pcs@, syms@).0.len(),
            fn_names(p.function@) == functions_of(pcs@, syms@).0,
            forall|j: int|
                0 <= j < p.function@.len() ==> {
                    let f = #[trigger] p.function@[j];
                    &&& f.id == j + 1
                    &&& f.name@ == functions_of(pcs@, syms@).0[j]
                    &&& f.system_name@ == f.name@
                    &&& f.filename@ == functions_of(pcs@, syms@).1[j]
                    &&& f.start_line == 0
                },
            forall|l: int|
                0 <= l < pcs@.len() ==> loc_ok(#[trigger] p.location@[l], l + 1, pcs@[l], syms@, fn_names(p.function@)),
        decreases keys@.len() - k,
    {
        let c = counts[k];
        assert(c * period <= stacks@.len() * period) by (nonlinear_arith)
            requires
                c <= stacks@.len(),
                0 <= period,
        ;
        assert(0 <= c * period) by (nonlinear_arith)
            requires
                1 <= c,
                0 <= period,
        ;
        let ids = u64s_vec(keys[k].as_slice());
        let mut value: Vec<i64> = Vec::new();
        value.push(c);
        value.push(c * period);
        assert(agg.2[k as int] == c as int);
        assert(agg.1[k as int] == keys@[k as int]@);
        assert(value@ =~= seq![agg.2[k as int] as i64, (agg.2[k as int] * period) as i64]);
        p.sample.push(Sample { location_id: ids, value });
        k = k + 1;
    }
    p
}

/// The sum of `s`.
pub open spec fn total(s: Seq<int>) -> int
    decreases s.len(),
{
    if s.len() == 0 {
        0
    } else {
        total(s.drop_last()) + s.last()
    }
}

proof fn lemma_total_bump(s: Seq<int>, k: int)
    requires
        0 <= k < s.len(),
    ensures
        total(s.update(k, s[k] + 1)) == total(s) + 1,
    decreases s.len(),
{
    if k < s.len() - 1 {
        lemma_total_bump(s.drop_last(), k);
        assert(s.update(k, s[k] + 1).drop_last() =~= s.drop_last().update(k, s[k] + 1));
    } else {
        assert(s.update(k, s[k] + 1).drop_last() =~= s.drop_last());
    }
}

/// Repeated stacks are counted, not repeated: the counts of the
/// distinct stacks add up to the number of stacks sampled, and there
/// is one count per distinct stack.
pub proof fn lemma_counts_add_up(stacks: Seq<Seq<u64>>)
    ensures
        total(aggregate(stacks).2) == stacks.len(),
        aggregate(stacks).1.len() == aggregate(stacks).2.len(),
    decreases stacks.len(),
{
    if stacks.len() > 0 {
        lemma_counts_add_up(stacks.drop_last());
        let (pcs, keys, counts) = aggregate(stacks.drop_last());
        let (p2, ids) = intern_stack(pcs, stacks.last());
        let k = first_at(keys, ids, 0);
        lemma_first_at_bound(keys, ids, 0);
        if k < keys.len() {
            lemma_total_bump(counts, k);
        } else {
            assert(counts.push(1).drop_last() =~= counts);
        }
    }
}

} // verus!
