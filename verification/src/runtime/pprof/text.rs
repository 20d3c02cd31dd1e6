//! The legacy text form of a count profile: identical stacks are
//! counted, the most frequent comes first (ties by the rendered stack),
//! and each distinct stack prints its count, its PCs and one line per
//! frame.
use vstd::prelude::*;
use crate::runtime::FuncForPC;
use crate::runtime::pprof::cpu::{u64s_equal, u64s_vec, lists};
use crate::runtime::pprof::proto::append_bytes;

verus! {

/// The lowercase hex digit for `d < 16`.
pub open spec fn hex_char(d: nat) -> u8 {
    if d < 10 {
        (0x30 + d) as u8
    } else {
        (0x57 + d) as u8
    }
}

/// `x` in lowercase hex, no leading zeros (`%x`).
pub open spec fn hex_text(x: nat) -> Seq<u8>
    decreases x,
{
    if x < 16 {
        seq![hex_char(x)]
    } else {
        hex_text(x / 16).push(hex_char(x % 16))
    }
}

/// `x` in decimal (`%d`).
pub open spec fn decimal_text(x: nat) -> Seq<u8>
    decreases x,
{
    if x < 10 {
        seq![(0x30 + x) as u8]
    } else {
        decimal_text(x / 10).push((0x30 + x % 10) as u8)
    }
}

/// `" 0x"`.
pub open spec fn pc_sep() -> Seq<u8> {
    seq![0x20u8, 0x30u8, 0x78u8]
}

/// `"#\t0x"`.
pub open spec fn frame_head() -> Seq<u8> {
    seq![0x23u8, 0x09u8, 0x30u8, 0x78u8]
}

/// `" profile: total "`.
pub open spec fn total_label() -> Seq<u8> {
    seq![
        0x20u8, 0x70u8, 0x72u8, 0x6fu8, 0x66u8, 0x69u8, 0x6cu8, 0x65u8, 0x3au8, 0x20u8,
        0x74u8, 0x6fu8, 0x74u8, 0x61u8, 0x6cu8, 0x20u8,
    ]
}

/// The PCs of a stack, each as `" 0x<hex>"`.
pub open spec fn key_tail(s: Seq<u64>) -> Seq<u8>
    decreases s.len(),
{
    if s.len() == 0 {
        Seq::empty()
    } else {
        key_tail(s.drop_last()) + pc_sep() + hex_text(s.last() as nat)
    }
}

/// The key a stack is counted under: `"@ 0x<pc> 0x<pc>..."`.
pub open spec fn stack_key(s: Seq<u64>) -> Seq<u8> {
    seq![0x40u8] + key_tail(s)
}

/// One `"#\t0x<pc>\n"` line per frame: no function is known for a PC.
pub open spec fn frame_lines(s: Seq<u64>) -> Seq<u8>
    decreases s.len(),
{
    if s.len() == 0 {
        Seq::empty()
    } else {
        frame_lines(s.drop_last()) + frame_head() + hex_text(s.last() as nat) + seq![0x0au8]
    }
}

/// How often `s` occurs among `stacks`.
pub open spec fn occurrences(stacks: Seq<Seq<u64>>, s: Seq<u64>) -> nat
    decreases stacks.len(),
{
    if stacks.len() == 0 {
        0
    } else {
        occurrences(stacks.drop_last(), s) + if stacks.last() == s {
            1nat
        } else {
            0nat
        }
    }
}

/// Each stack once, in the order of first occurrence.
pub open spec fn distinct_stacks(stacks: Seq<Seq<u64>>) -> Seq<Seq<u64>>
    decreases stacks.len(),
{
    if stacks.len() == 0 {
        Seq::empty()
    } else {
        let d = distinct_stacks(stacks.drop_last());
        if d.contains(stacks.last()) {
            d
        } else {
            d.push(stacks.last())
        }
    }
}

/// Byte-wise lexicographic order, a proper prefix first.
pub open spec fn lex_lt(a: Seq<u8>, b: Seq<u8>) -> bool
    decreases a.len(),
{
    if b.len() == 0 {
        false
    } else if a.len() == 0 {
        true
    } else if a[0] != b[0] {
        a[0] < b[0]
    } else {
        lex_lt(a.drop_first(), b.drop_first())
    }
}

/// `a` is printed before `b`: it is more frequent, or as frequent with
/// the smaller key.
pub open spec fn goes_before(stacks: Seq<Seq<u64>>, a: Seq<u64>, b: Seq<u64>) -> bool {
    let ca = occurrences(stacks, a);
    let cb = occurrences(stacks, b);
    ca > cb || (ca == cb && lex_lt(stack_key(a), stack_key(b)))
}

/// `s` put into `sorted` in front of the first stack it goes before.
pub open spec fn insert_ranked(stacks: Seq<Seq<u64>>, sorted: Seq<Seq<u64>>, s: Seq<u64>) -> Seq<Seq<u64>>
    decreases sorted.len(),
{
    if sorted.len() == 0 {
        seq![s]
    } else if goes_before(stacks, s, sorted[0]) {
        seq![s] + sorted
    } else {
        seq![sorted[0]] + insert_ranked(stacks, sorted.drop_first(), s)
    }
}

/// `items` in print order.
pub open spec fn rank_all(stacks: Seq<Seq<u64>>, items: Seq<Seq<u64>>) -> Seq<Seq<u64>>
    decreases items.len(),
{
    if items.len() == 0 {
        Seq::empty()
    } else {
        insert_ranked(stacks, rank_all(stacks, items.drop_last()), items.last())
    }
}

/// The distinct stacks in print order.
pub open spec fn ranked_stacks(stacks: Seq<Seq<u64>>) -> Seq<Seq<u64>> {
    rank_all(stacks, distinct_stacks(stacks))
}

/// `"<count> <key>\n"` and the frame lines, for each stack of `ord`.
pub open spec fn stack_records(stacks: Seq<Seq<u64>>, ord: Seq<Seq<u64>>) -> Seq<u8>
    decreases ord.len(),
{
    if ord.len() == 0 {
        Seq::empty()
    } else {
        stack_records(stacks, ord.drop_last()) + decimal_text(occurrences(stacks, ord.last()))
            + seq![0x20u8] + stack_key(ord.last()) + seq![0x0au8] + frame_lines(ord.last())
    }
}

/// The whole text: `"<name> profile: total <n>\n"` and the records.
pub open spec fn count_profile_text(name: Seq<u8>, stacks: Seq<Seq<u64>>) -> Seq<u8> {
    name + total_label() + decimal_text(stacks.len()) + seq![0x0au8] + stack_records(
        stacks,
        ranked_stacks(stacks),
    )
}

/// Appends `x` in lowercase hex.
pub(crate) fn put_hex(out: &mut Vec<u8>, x: u64)
    ensures
        final(out)@ == old(out)@ + hex_text(x as nat),
    decreases x,
{
    if x >= 16 {
        put_hex(out, x / 16);
    }
    let d = x % 16;
    let c: u8 = if d < 10 {
        0x30u8 + d as u8
    } else {
        0x57u8 + d as u8
    };
    out.push(c);
    assert(final(out)@ =~= old(out)@ + hex_text(x as nat)) by {
        if x >= 16 {
            assert(hex_text(x as nat) == hex_text((x / 16) as nat).push(hex_char((x % 16) as nat)));
        }
    }
}

/// Appends `x` in decimal.
pub(crate) fn put_dec(out: &mut Vec<u8>, x: u64)
    ensures
        final(out)@ == old(out)@ + decimal_text(x as nat),
    decreases x,
{
    if x >= 10 {
        put_dec(out, x / 10);
    }
    out.push(0x30u8 + (x % 10) as u8);
    assert(final(out)@ =~= old(out)@ + decimal_text(x as nat));
}

/// Appends the key of `s`.
fn put_key(out: &mut Vec<u8>, s: &[u64])
    ensures
        final(out)@ == old(out)@ + stack_key(s@),
{
    out.push(0x40u8);
    let mut i: usize = 0;
    while i < s.len()
        invariant
            i <= s.len(),
            out@ == old(out)@ + seq![0x40u8] + key_tail(s@.subrange(0, i as int)),
        decreases s.len() - i,
    {
        let sep: [u8; 3] = [0x20u8, 0x30u8, 0x78u8];
        assert(sep@ =~= pc_sep());
        append_bytes(out, &sep);
        put_hex(out, s[i]);
        assert(s@.subrange(0, i + 1).drop_last() =~= s@.subrange(0, i as int));
        i = i + 1;
        assert(out@ =~= old(out)@ + seq![0x40u8] + key_tail(s@.subrange(0, i as int)));
    }
    assert(s@.subrange(0, s.len() as int) =~= s@);
    assert(out@ =~= old(out)@ + stack_key(s@));
}

/// Appends the frame lines of `s`.
fn put_frames(out: &mut Vec<u8>, s: &[u64])
    ensures
        final(out)@ == old(out)@ + frame_lines(s@),
{
    let mut i: usize = 0;
    while i < s.len()
        invariant
            i <= s.len(),
            out@ == old(out)@ + frame_lines(s@.subrange(0, i as int)),
        decreases s.len() - i,
    {
        let pc = s[i];
        match FuncForPC(pc) {
            Some(f) => {
                let head: [u8; 4] = [0x23u8, 0x09u8, 0x30u8, 0x78u8];
                append_bytes(out, &head);
                put_hex(out, pc);
                let tail: [u8; 4] = [0x09u8, 0x2bu8, 0x30u8, 0x78u8];
                append_bytes(out, &tail);
                put_hex(out, if pc > f.entry { pc - f.entry } else { 0 });
                out.push(0x0au8);
            },
            None => {
                let head: [u8; 4] = [0x23u8, 0x09u8, 0x30u8, 0x78u8];
                assert(head@ =~= frame_head());
                append_bytes(out, &head);
                put_hex(out, pc);
                out.push(0x0au8);
            },
        }
        assert(s@.subrange(0, i + 1).drop_last() =~= s@.subrange(0, i as int));
        i = i + 1;
        assert(out@ =~= old(out)@ + frame_lines(s@.subrange(0, i as int)));
    }
    assert(s@.subrange(0, s.len() as int) =~= s@);
}

/// `a` sorts before `b` byte by byte.
pub(crate) fn lex_less(a: &[u8], b: &[u8]) -> (r: bool)
    ensures
        r == lex_lt(a@, b@),
{
    let mut i: usize = 0;
    assert(a@.subrange(0, a.len() as int) =~= a@);
    assert(b@.subrange(0, b.len() as int) =~= b@);
    while i < a.len() && i < b.len() && a[i] == b[i]
        invariant
            i <= a.len(),
            i <= b.len(),
            lex_lt(a@, b@) == lex_lt(a@.subrange(i as int, a.len() as int), b@.subrange(i as int, b.len() as int)),
        decreases a.len() - i,
    {
        proof {
            let sa = a@.subrange(i as int, a.len() as int);
            let sb = b@.subrange(i as int, b.len() as int);
            assert(sa.drop_first() =~= a@.subrange(i + 1, a.len() as int));
            assert(sb.drop_first() =~= b@.subrange(i + 1, b.len() as int));
        }
        i = i + 1;
    }
    if i == b.len() {
        false
    } else if i == a.len() {
        true
    } else {
        a[i] < b[i]
    }
}

/// Why a profile could not be written.
#[derive(Clone, Copy, PartialEq, Eq, Debug)]
pub enum ProfileError {
    /// `debug <= 0` asks for profile.proto, which a count profile is
    /// not written as.
    ProtobufUnsupported,
}

impl ProfileError {
    /// The error's text.
    pub fn message(&self) -> (r: &'static str)
        ensures
            r@ == "runtime/pprof: protobuf profile encoding not supported by the goish runtime (use debug=1)"@,
    {
        "runtime/pprof: protobuf profile encoding not supported by the goish runtime (use debug=1)"
    }
}

proof fn lemma_occ_distinct(s: Seq<Seq<u64>>, x: Seq<u64>)
    ensures
        distinct_stacks(s).contains(x) <==> occurrences(s, x) > 0,
    decreases s.len(),
{
    if s.len() > 0 {
        lemma_occ_distinct(s.drop_last(), x);
        let d = distinct_stacks(s.drop_last());
        let l = s.last();
        if !d.contains(l) {
            let e = d.push(l);
            assert(e[d.len() as int] == l);
            if d.contains(x) {
                let k = choose|k: int| 0 <= k < d.len() && d[k] == x;
                assert(e[k] == x);
            }
            if e.contains(x) && x != l {
                let k = choose|k: int| 0 <= k < e.len() && e[k] == x;
                assert(k < d.len());
                assert(d[k] == x);
            }
        }
    }
}

proof fn lemma_insert_ranked_at(st: Seq<Seq<u64>>, sorted: Seq<Seq<u64>>, s: Seq<u64>, p: int)
    requires
        0 <= p <= sorted.len(),
        forall|q: int| 0 <= q < p ==> !goes_before(st, s, #[trigger] sorted[q]),
        p < sorted.len() ==> goes_before(st, s, sorted[p]),
    ensures
        insert_ranked(st, sorted, s) == sorted.insert(p, s),
    decreases sorted.len(),
{
    if sorted.len() == 0 {
        assert(sorted.insert(p, s) =~= seq![s]);
    } else if p == 0 {
        assert(sorted.insert(0, s) =~= seq![s] + sorted);
    } else {
        assert(!goes_before(st, s, sorted[0]));
        let rest = sorted.drop_first();
        assert forall|q: int| 0 <= q < p - 1 implies !goes_before(st, s, #[trigger] rest[q]) by {
            assert(rest[q] == sorted[q + 1]);
        }
        lemma_insert_ranked_at(st, rest, s, p - 1);
        assert(sorted.insert(p, s) =~= seq![sorted[0]] + rest.insert(p - 1, s));
    }
}

/// The first group that holds the same PCs as `x`, or `groups.len()`.
fn find_group(groups: &Vec<Vec<u64>>, x: &[u64]) -> (j: usize)
    ensures
        j <= groups.len(),
        j < groups.len() ==> groups@[j as int]@ == x@,
        forall|k: int| 0 <= k < j ==> groups@[k]@ != x@,
{
    let mut j: usize = 0;
    while j < groups.len()
        invariant
            j <= groups.len(),
            forall|k: int| 0 <= k < j ==> groups@[k]@ != x@,
        decreases groups.len() - j,
    {
        if u64s_equal(&groups[j], x) {
            return j;
        }
        j = j + 1;
    }
    j
}

/// `printCountProfile` — the legacy text of a count profile over
/// `stacks` (`debug >= 1`); `debug <= 0` asks for the protobuf form,
/// which is refused.
pub fn printCountProfile(debug: i64, name: &[u8], stacks: &[Vec<u64>]) -> (r: Result<Vec<u8>, ProfileError>)
    ensures
        debug <= 0 ==> r == Err::<Vec<u8>, ProfileError>(ProfileError::ProtobufUnsupported),
        debug > 0 ==> (r matches Ok(out) && out@ == count_profile_text(name@, lists(stacks@))),
{
    if debug <= 0 {
        return Err(ProfileError::ProtobufUnsupported);
    }
    let ghost st = lists(stacks@);
    // Count each distinct stack, in the order of first occurrence.
    let mut groups: Vec<Vec<u64>> = Vec::new();
    let mut counts: Vec<usize> = Vec::new();
    let mut i: usize = 0;
    while i < stacks.len()
        invariant
            i <= stacks.len(),
            st == lists(stacks@),
            groups.len() == counts.len(),
            lists(groups@) == distinct_stacks(st.take(i as int)),
            forall|a: int, b: int| 0 <= a < b < groups.len() ==> groups@[a]@ != groups@[b]@,
            forall|g: int| 0 <= g < groups.len() ==> counts@[g] == occurrences(st.take(i as int), #[trigger] groups@[g]@),
            forall|g: int| 0 <= g < groups.len() ==> #[trigger] counts@[g] <= i,
        decreases stacks.len() - i,
    {
        let j = find_group(&groups, &stacks[i]);
        let ghost pre = st.take(i as int);
        let ghost post = st.take(i + 1);
        proof {
            assert(post.drop_last() =~= pre);
            assert(post.last() == stacks@[i as int]@);
            lemma_occ_distinct(pre, stacks@[i as int]@);
        }
        if j < groups.len() {
            let c = counts[j];
            counts.set(j, c + 1);
            proof {
                assert(distinct_stacks(pre).contains(stacks@[i as int]@)) by {
                    assert(lists(groups@)[j as int] == stacks@[i as int]@);
                }
                assert forall|g: int| 0 <= g < groups.len() implies counts@[g] == occurrences(post, #[trigger] groups@[g]@) by {
                    if g != j {
                        assert(groups@[g]@ != groups@[j as int]@);
                    }
                }
            }
        } else {
            let v = u64s_vec(&stacks[i]);
            groups.push(v);
            counts.push(1);
            proof {
                assert(!distinct_stacks(pre).contains(stacks@[i as int]@)) by {
                    if distinct_stacks(pre).contains(stacks@[i as int]@) {
                        let k = choose|k: int| 0 <= k < distinct_stacks(pre).len() && distinct_stacks(pre)[k] == stacks@[i as int]@;
                        assert(groups@[k]@ == stacks@[i as int]@);
                    }
                }
                assert(lists(groups@) =~= distinct_stacks(pre).push(stacks@[i as int]@));
                assert forall|g: int| 0 <= g < groups.len() implies counts@[g] == occurrences(post, #[trigger] groups@[g]@) by {
                    if g < groups.len() - 1 {
                        assert(groups@[g]@ != stacks@[i as int]@);
                    }
                }
            }
        }
        i = i + 1;
    }
    assert(st.take(stacks.len() as int) =~= st);
    let ghost dist = lists(groups@);
    // The key of each group.
    let mut keys: Vec<Vec<u8>> = Vec::new();
    let mut g: usize = 0;
    while g < groups.len()
        invariant
            g <= groups.len(),
            keys.len() == g,
            forall|k: int| 0 <= k < g ==> #[trigger] keys@[k]@ == stack_key(groups@[k]@),
        decreases groups.len() - g,
    {
        let mut k: Vec<u8> = Vec::new();
        put_key(&mut k, &groups[g]);
        assert(k@ =~= stack_key(groups@[g as int]@));
        keys.push(k);
        g = g + 1;
    }
    // Order the groups: most frequent first, ties by key.
    let mut ord: Vec<usize> = Vec::new();
    g = 0;
    while g < groups.len()
        invariant
            g <= groups.len(),
            dist == lists(groups@),
            dist == distinct_stacks(st),
            groups.len() == counts.len(),
            keys.len() == groups.len(),
            forall|k: int| 0 <= k < groups.len() ==> #[trigger] keys@[k]@ == stack_key(groups@[k]@),
            forall|x: int| 0 <= x < groups.len() ==> counts@[x] == occurrences(st, #[trigger] groups@[x]@),
            forall|q: int| 0 <= q < ord.len() ==> #[trigger] ord@[q] < groups.len(),
            ord@.map_values(|x: usize| dist[x as int]) == rank_all(st, dist.take(g as int)),
        decreases groups.len() - g,
    {
        let ghost sorted = ord@.map_values(|x: usize| dist[x as int]);
        let mut p: usize = 0;
        while p < ord.len()
            invariant
                p <= ord.len(),
                g < groups.len(),
                dist == lists(groups@),
                groups.len() == counts.len(),
                keys.len() == groups.len(),
                forall|k: int| 0 <= k < groups.len() ==> #[trigger] keys@[k]@ == stack_key(groups@[k]@),
                forall|x: int| 0 <= x < groups.len() ==> counts@[x] == occurrences(st, #[trigger] groups@[x]@),
                forall|q: int| 0 <= q < ord.len() ==> #[trigger] ord@[q] < groups.len(),
                sorted == ord@.map_values(|x: usize| dist[x as int]),
                forall|q: int| 0 <= q < p ==> !goes_before(st, dist[g as int], #[trigger] sorted[q]),
            ensures
                p <= ord.len(),
                forall|q: int| 0 <= q < p ==> !goes_before(st, dist[g as int], #[trigger] sorted[q]),
                p < ord.len() ==> goes_before(st, dist[g as int], sorted[p as int]),
            decreases ord.len() - p,
        {
            let o = ord[p];
            let before = counts[g] > counts[o] || (counts[g] == counts[o] && lex_less(&keys[g], &keys[o]));
            assert(before == goes_before(st, dist[g as int], sorted[p as int]));
            if before {
                break;
            }
            p = p + 1;
        }
        proof {
            lemma_insert_ranked_at(st, sorted, dist[g as int], p as int);
            assert(dist.take(g + 1).drop_last() =~= dist.take(g as int));
        }
        ord.insert(p, g);
        assert(ord@.map_values(|x: usize| dist[x as int]) =~= sorted.insert(p as int, dist[g as int]));
        g = g + 1;
    }
    assert(dist.take(groups.len() as int) =~= dist);
    // Render.
    let mut out: Vec<u8> = Vec::new();
    append_bytes(&mut out, name);
    let label: [u8; 16] = [
        0x20u8, 0x70u8, 0x72u8, 0x6fu8, 0x66u8, 0x69u8, 0x6cu8, 0x65u8, 0x3au8, 0x20u8,
        0x74u8, 0x6fu8, 0x74u8, 0x61u8, 0x6cu8, 0x20u8,
    ];
    assert(label@ =~= total_label());
    append_bytes(&mut out, &label);
    put_dec(&mut out, stacks.len() as u64);
    out.push(0x0au8);
    let ghost head = out@;
    let ghost rk = ranked_stacks(st);
    let mut t: usize = 0;
    while t < ord.len()
        invariant
            t <= ord.len(),
            rk == ord@.map_values(|x: usize| dist[x as int]),
            dist == lists(groups@),
            groups.len() == counts.len(),
            keys.len() == groups.len(),
            forall|k: int| 0 <= k < groups.len() ==> #[trigger] keys@[k]@ == stack_key(groups@[k]@),
            forall|x: int| 0 <= x < groups.len() ==> counts@[x] == occurrences(st, #[trigger] groups@[x]@),
            forall|q: int| 0 <= q < ord.len() ==> #[trigger] ord@[q] < groups.len(),
            out@ == head + stack_records(st, rk.take(t as int)),
        decreases ord.len() - t,
    {
        let o = ord[t];
        put_dec(&mut out, counts[o] as u64);
        out.push(0x20u8);
        append_bytes(&mut out, &keys[o]);
        out.push(0x0au8);
        put_frames(&mut out, &groups[o]);
        proof {
            assert(rk.take(t + 1).drop_last() =~= rk.take(t as int));
            assert(rk[t as int] == groups@[o as int]@);
        }
        t = t + 1;
        assert(out@ =~= head + stack_records(st, rk.take(t as int)));
    }
    assert(rk.take(ord.len() as int) =~= rk);
    Ok(out)
}

/// The value of a run of lowercase hex digits.
pub open spec fn hex_value(s: Seq<u8>) -> int
    decreases s.len(),
{
    if s.len() == 0 {
        0
    } else {
        hex_value(s.drop_last()) * 16 + if s.last() < 0x61 {
            s.last() - 0x30
        } else {
            s.last() - 0x57
        }
    }
}

/// `hex_text` can be read back, and holds no space.
proof fn lemma_hex_text(x: nat)
    ensures
        hex_value(hex_text(x)) == x,
        hex_text(x).len() >= 1,
        forall|k: int| 0 <= k < hex_text(x).len() ==> #[trigger] hex_text(x)[k] != 0x20u8,
    decreases x,
{
    if x >= 16 {
        lemma_hex_text(x / 16);
        let h = hex_text(x / 16);
        let c = hex_char(x % 16);
        assert(hex_text(x) == h.push(c));
        assert(hex_text(x).drop_last() =~= h);
        assert(hex_text(x).last() == c);
        assert(hex_value(hex_text(x)) == hex_value(h) * 16 + (x % 16));
        assert forall|k: int| 0 <= k < hex_text(x).len() implies #[trigger] hex_text(x)[k] != 0x20u8 by {
            if k < h.len() {
                assert(hex_text(x)[k] == h[k]);
            }
        }
    } else {
        let t = hex_text(x);
        assert(t == seq![hex_char(x)]);
        assert(t.drop_last() =~= Seq::<u8>::empty());
        assert(hex_value(t) == hex_value(Seq::<u8>::empty()) * 16 + x);
    }
}

/// Two stacks with the same key are the same stack.
proof fn lemma_key_tail_injective(s1: Seq<u64>, s2: Seq<u64>)
    requires
        key_tail(s1) == key_tail(s2),
    ensures
        s1 == s2,
    decreases s1.len() + s2.len(),
{
    if s1.len() == 0 && s2.len() == 0 {
        assert(s1 =~= s2);
        return;
    }
    if s1.len() == 0 || s2.len() == 0 {
        if s1.len() > 0 {
            lemma_hex_text(s1.last() as nat);
            assert(key_tail(s1).len() > 0);
        } else {
            lemma_hex_text(s2.last() as nat);
            assert(key_tail(s2).len() > 0);
        }
        return;
    }
    let p1 = key_tail(s1.drop_last());
    let p2 = key_tail(s2.drop_last());
    let h1 = hex_text(s1.last() as nat);
    let h2 = hex_text(s2.last() as nat);
    lemma_hex_text(s1.last() as nat);
    lemma_hex_text(s2.last() as nat);
    let t = key_tail(s1);
    assert(t == p1 + pc_sep() + h1);
    assert(t == p2 + pc_sep() + h2);
    let n = t.len();
    if h1.len() < h2.len() {
        let q = n - h1.len() - 3;
        assert(t[q] == 0x20u8) by {
            assert(t[q] == (p1 + pc_sep() + h1)[q]);
        }
        let d = q - p2.len();
        assert(1 <= d);
        assert(t[q] == (p2 + pc_sep() + h2)[q]);
        if d >= 3 {
            assert(t[q] == h2[d - 3]);
        }
        assert(false);
    }
    if h2.len() < h1.len() {
        let q = n - h2.len() - 3;
        assert(t[q] == 0x20u8) by {
            assert(t[q] == (p2 + pc_sep() + h2)[q]);
        }
        let d = q - p1.len();
        assert(1 <= d);
        assert(t[q] == (p1 + pc_sep() + h1)[q]);
        if d >= 3 {
            assert(t[q] == h1[d - 3]);
        }
        assert(false);
    }
    assert(p1 =~= t.subrange(0, p1.len() as int));
    assert(p2 =~= t.subrange(0, p2.len() as int));
    assert(h1 =~= t.subrange(n - h1.len(), n as int));
    assert(h2 =~= t.subrange(n - h2.len(), n as int));
    lemma_key_tail_injective(s1.drop_last(), s2.drop_last());
    assert(s1 =~= s1.drop_last().push(s1.last()));
    assert(s2 =~= s2.drop_last().push(s2.last()));
}

proof fn lemma_lex_irrefl(a: Seq<u8>)
    ensures
        !lex_lt(a, a),
    decreases a.len(),
{
    if a.len() > 0 {
        lemma_lex_irrefl(a.drop_first());
    }
}

pub proof fn lemma_lex_total(a: Seq<u8>, b: Seq<u8>)
    requires
        a != b,
    ensures
        lex_lt(a, b) || lex_lt(b, a),
        !(lex_lt(a, b) && lex_lt(b, a)),
    decreases a.len(),
{
    if a.len() > 0 && b.len() > 0 && a[0] == b[0] {
        if a.drop_first() == b.drop_first() {
            assert(a =~= seq![a[0]] + a.drop_first());
            assert(b =~= seq![b[0]] + b.drop_first());
        }
        lemma_lex_total(a.drop_first(), b.drop_first());
    } else if a.len() == 0 && b.len() == 0 {
        assert(a =~= b);
    }
}

pub proof fn lemma_lex_trans(a: Seq<u8>, b: Seq<u8>, c: Seq<u8>)
    requires
        lex_lt(a, b),
        lex_lt(b, c),
    ensures
        lex_lt(a, c),
    decreases a.len(),
{
    if a.len() > 0 && b.len() > 0 && c.len() > 0 && a[0] == b[0] && b[0] == c[0] {
        lemma_lex_trans(a.drop_first(), b.drop_first(), c.drop_first());
    }
}

/// Print order is a strict total order on distinct stacks.
proof fn lemma_before_order(st: Seq<Seq<u64>>, a: Seq<u64>, b: Seq<u64>, c: Seq<u64>)
    ensures
        !goes_before(st, a, a),
        a != b ==> goes_before(st, a, b) || goes_before(st, b, a),
        !(goes_before(st, a, b) && goes_before(st, b, a)),
        goes_before(st, a, b) && goes_before(st, b, c) ==> goes_before(st, a, c),
{
    lemma_lex_irrefl(stack_key(a));
    if a != b {
        if stack_key(a) == stack_key(b) {
            assert(key_tail(a) =~= stack_key(a).drop_first());
            assert(key_tail(b) =~= stack_key(b).drop_first());
            lemma_key_tail_injective(a, b);
        }
        lemma_lex_total(stack_key(a), stack_key(b));
    } else {
        lemma_lex_irrefl(stack_key(a));
    }
    if goes_before(st, a, b) && goes_before(st, b, c) {
        if lex_lt(stack_key(a), stack_key(b)) && lex_lt(stack_key(b), stack_key(c)) {
            lemma_lex_trans(stack_key(a), stack_key(b), stack_key(c));
        }
    }
    if stack_key(a) != stack_key(b) {
        lemma_lex_total(stack_key(a), stack_key(b));
    }
}

/// Every earlier stack of `r` is printed before every later one.
pub open spec fn ranked(st: Seq<Seq<u64>>, r: Seq<Seq<u64>>) -> bool {
    forall|i: int, j: int| 0 <= i < j < r.len() ==> goes_before(st, r[i], r[j])
}

/// No stack occurs twice.
pub open spec fn no_dups(r: Seq<Seq<u64>>) -> bool {
    forall|i: int, j: int| 0 <= i < j < r.len() ==> r[i] != r[j]
}

proof fn lemma_insert_ranked(st: Seq<Seq<u64>>, sorted: Seq<Seq<u64>>, s: Seq<u64>)
    requires
        ranked(st, sorted),
        !sorted.contains(s),
    ensures
        ranked(st, insert_ranked(st, sorted, s)),
        insert_ranked(st, sorted, s).len() == sorted.len() + 1,
        forall|x: Seq<u64>| #[trigger] insert_ranked(st, sorted, s).contains(x) <==> (sorted.contains(x) || x == s),
    decreases sorted.len(),
{
    let r = insert_ranked(st, sorted, s);
    if sorted.len() == 0 {
        assert(r =~= seq![s]);
        assert forall|x: Seq<u64>| #[trigger] r.contains(x) <==> (sorted.contains(x) || x == s) by {
            if r.contains(x) {
                assert(r[0] == x);
            }
            if x == s {
                assert(r[0] == s);
            }
        }
    } else if goes_before(st, s, sorted[0]) {
        assert(r =~= seq![s] + sorted);
        assert forall|i: int, j: int| 0 <= i < j < r.len() implies goes_before(st, r[i], r[j]) by {
            if i == 0 {
                if j > 1 {
                    lemma_before_order(st, s, sorted[0], sorted[j - 1]);
                }
            } else {
                assert(r[i] == sorted[i - 1] && r[j] == sorted[j - 1]);
            }
        }
        assert forall|x: Seq<u64>| #[trigger] r.contains(x) <==> (sorted.contains(x) || x == s) by {
            if r.contains(x) {
                let k = choose|k: int| 0 <= k < r.len() && r[k] == x;
                if k > 0 {
                    assert(sorted[k - 1] == x);
                }
            }
            if sorted.contains(x) {
                let k = choose|k: int| 0 <= k < sorted.len() && sorted[k] == x;
                assert(r[k + 1] == x);
            }
            if x == s {
                assert(r[0] == s);
            }
        }
    } else {
        let rest = sorted.drop_first();
        assert forall|i: int, j: int| 0 <= i < j < rest.len() implies goes_before(st, rest[i], rest[j]) by {
            assert(rest[i] == sorted[i + 1] && rest[j] == sorted[j + 1]);
        }
        if rest.contains(s) {
            let k = choose|k: int| 0 <= k < rest.len() && rest[k] == s;
            assert(sorted[k + 1] == s);
        }
        lemma_insert_ranked(st, rest, s);
        let ir = insert_ranked(st, rest, s);
        assert(r =~= seq![sorted[0]] + ir);
        assert(sorted[0] != s) by {
            assert(sorted.contains(sorted[0]));
        }
        lemma_before_order(st, sorted[0], s, s);
        assert forall|i: int, j: int| 0 <= i < j < r.len() implies goes_before(st, r[i], r[j]) by {
            if i == 0 {
                assert(r[j] == ir[j - 1]);
                assert(ir.contains(ir[j - 1]));
                if ir[j - 1] != s {
                    assert(rest.contains(ir[j - 1]));
                    let k = choose|k: int| 0 <= k < rest.len() && rest[k] == ir[j - 1];
                    assert(sorted[k + 1] == ir[j - 1]);
                }
            } else {
                assert(r[i] == ir[i - 1] && r[j] == ir[j - 1]);
            }
        }
        assert forall|x: Seq<u64>| #[trigger] r.contains(x) <==> (sorted.contains(x) || x == s) by {
            if r.contains(x) {
                let k = choose|k: int| 0 <= k < r.len() && r[k] == x;
                if k > 0 {
                    assert(ir[k - 1] == x);
                    assert(ir.contains(x));
                    if rest.contains(x) {
                        let m = choose|m: int| 0 <= m < rest.len() && rest[m] == x;
                        assert(sorted[m + 1] == x);
                    }
                } else {
                    assert(sorted[0] == x);
                }
            }
            if sorted.contains(x) {
                let k = choose|k: int| 0 <= k < sorted.len() && sorted[k] == x;
                if k == 0 {
                    assert(r[0] == x);
                } else {
                    assert(rest[k - 1] == x);
                    assert(ir.contains(x));
                    let m = choose|m: int| 0 <= m < ir.len() && ir[m] == x;
                    assert(r[m + 1] == x);
                }
            }
            if x == s {
                assert(ir.contains(s));
                let m = choose|m: int| 0 <= m < ir.len() && ir[m] == s;
                assert(r[m + 1] == s);
            }
        }
    }
}

proof fn lemma_rank_all(st: Seq<Seq<u64>>, items: Seq<Seq<u64>>)
    requires
        no_dups(items),
    ensures
        ranked(st, rank_all(st, items)),
        forall|x: Seq<u64>| #[trigger] rank_all(st, items).contains(x) <==> items.contains(x),
    decreases items.len(),
{
    if items.len() > 0 {
        let p = items.drop_last();
        assert forall|i: int, j: int| 0 <= i < j < p.len() implies p[i] != p[j] by {
            assert(p[i] == items[i] && p[j] == items[j]);
        }
        lemma_rank_all(st, p);
        if rank_all(st, p).contains(items.last()) {
            assert(p.contains(items.last()));
            let k = choose|k: int| 0 <= k < p.len() && p[k] == items.last();
            assert(items[k] == items[items.len() - 1]);
        }
        lemma_insert_ranked(st, rank_all(st, p), items.last());
        assert forall|x: Seq<u64>| #[trigger] rank_all(st, items).contains(x) <==> items.contains(x) by {
            if p.contains(x) {
                let k = choose|k: int| 0 <= k < p.len() && p[k] == x;
                assert(items[k] == x);
            }
            if items.contains(x) && x != items.last() {
                let k = choose|k: int| 0 <= k < items.len() && items[k] == x;
                assert(k < items.len() - 1);
                assert(p[k] == x);
            }
            if x == items.last() {
                assert(items[items.len() - 1] == x);
            }
        }
    }
}

/// Two ranked lists of the same stacks are the same list.
proof fn lemma_ranked_unique(st: Seq<Seq<u64>>, r1: Seq<Seq<u64>>, r2: Seq<Seq<u64>>)
    requires
        ranked(st, r1),
        ranked(st, r2),
        forall|x: Seq<u64>| #[trigger] r1.contains(x) <==> r2.contains(x),
    ensures
        r1 == r2,
    decreases r1.len(),
{
    if r1.len() == 0 {
        if r2.len() > 0 {
            assert(r2.contains(r2[0]));
            assert(r1.contains(r2[0]));
        }
        assert(r1 =~= r2);
        return;
    }
    assert(r1.contains(r1[0]));
    assert(r2.contains(r1[0]));
    assert(r2.len() > 0);
    assert(r2.contains(r2[0]));
    assert(r1.contains(r2[0]));
    if r1[0] != r2[0] {
        let j = choose|j: int| 0 <= j < r2.len() && r2[j] == r1[0];
        let i = choose|i: int| 0 <= i < r1.len() && r1[i] == r2[0];
        assert(j > 0 && i > 0);
        assert(goes_before(st, r2[0], r1[0]));
        assert(goes_before(st, r1[0], r2[0]));
        lemma_before_order(st, r1[0], r2[0], r1[0]);
        assert(false);
    }
    let t1 = r1.drop_first();
    let t2 = r2.drop_first();
    assert forall|i: int, j: int| 0 <= i < j < t1.len() implies goes_before(st, t1[i], t1[j]) by {
        assert(t1[i] == r1[i + 1] && t1[j] == r1[j + 1]);
    }
    assert forall|i: int, j: int| 0 <= i < j < t2.len() implies goes_before(st, t2[i], t2[j]) by {
        assert(t2[i] == r2[i + 1] && t2[j] == r2[j + 1]);
    }
    assert forall|x: Seq<u64>| #[trigger] t1.contains(x) <==> t2.contains(x) by {
        if t1.contains(x) {
            let k = choose|k: int| 0 <= k < t1.len() && t1[k] == x;
            assert(r1[k + 1] == x);
            assert(r1.contains(x));
            assert(r2.contains(x));
            let m = choose|m: int| 0 <= m < r2.len() && r2[m] == x;
            if m == 0 {
                assert(goes_before(st, r1[0], r1[k + 1]));
                lemma_before_order(st, r1[0], r1[0], r1[0]);
            } else {
                assert(t2[m - 1] == x);
            }
        }
        if t2.contains(x) {
            let k = choose|k: int| 0 <= k < t2.len() && t2[k] == x;
            assert(r2[k + 1] == x);
            assert(r2.contains(x));
            assert(r1.contains(x));
            let m = choose|m: int| 0 <= m < r1.len() && r1[m] == x;
            if m == 0 {
                assert(goes_before(st, r2[0], r2[k + 1]));
                lemma_before_order(st, r2[0], r2[0], r2[0]);
            } else {
                assert(t1[m - 1] == x);
            }
        }
    }
    lemma_ranked_unique(st, t1, t2);
    assert(r1 =~= seq![r1[0]] + t1);
    assert(r2 =~= seq![r2[0]] + t2);
}

proof fn lemma_occ_multiset(s: Seq<Seq<u64>>, x: Seq<u64>)
    ensures
        occurrences(s, x) == s.to_multiset().count(x),
    decreases s.len(),
{
    broadcast use vstd::seq_lib::group_to_multiset_ensures;
    broadcast use vstd::multiset::group_multiset_axioms;

    if s.len() == 0 {
        assert(s.to_multiset() =~= vstd::multiset::Multiset::<Seq<u64>>::empty());
    } else {
        lemma_occ_multiset(s.drop_last(), x);
        assert(s =~= s.drop_last().push(s.last()));
    }
}

proof fn lemma_distinct_no_dups(s: Seq<Seq<u64>>)
    ensures
        no_dups(distinct_stacks(s)),
    decreases s.len(),
{
    if s.len() > 0 {
        lemma_distinct_no_dups(s.drop_last());
        let d = distinct_stacks(s.drop_last());
        if !d.contains(s.last()) {
            let e = d.push(s.last());
            assert forall|i: int, j: int| 0 <= i < j < e.len() implies e[i] != e[j] by {
                if j == d.len() {
                    assert(e[i] == d[i]);
                } else {
                    assert(e[i] == d[i] && e[j] == d[j]);
                }
            }
        }
    }
}

proof fn lemma_records_same_counts(a: Seq<Seq<u64>>, b: Seq<Seq<u64>>, ord: Seq<Seq<u64>>)
    requires
        forall|x: Seq<u64>| #[trigger] occurrences(a, x) == occurrences(b, x),
    ensures
        stack_records(a, ord) == stack_records(b, ord),
    decreases ord.len(),
{
    if ord.len() > 0 {
        lemma_records_same_counts(a, b, ord.drop_last());
        assert(occurrences(a, ord.last()) == occurrences(b, ord.last()));
    }
}

/// The text of a count profile depends on which stacks were collected,
/// how often each, and the name — not on the order they were collected
/// in: the output is deterministic.
pub proof fn lemma_count_text_order_free(name: Seq<u8>, a: Seq<Seq<u64>>, b: Seq<Seq<u64>>)
    requires
        a.to_multiset() == b.to_multiset(),
    ensures
        count_profile_text(name, a) == count_profile_text(name, b),
{
    broadcast use vstd::seq_lib::group_to_multiset_ensures;

    assert forall|x: Seq<u64>| #[trigger] occurrences(a, x) == occurrences(b, x) by {
        lemma_occ_multiset(a, x);
        lemma_occ_multiset(b, x);
    }
    assert(a.len() == b.len()) by {
        assert(a.len() == a.to_multiset().len());
        assert(b.len() == b.to_multiset().len());
    }
    lemma_distinct_no_dups(a);
    lemma_distinct_no_dups(b);
    lemma_rank_all(a, distinct_stacks(a));
    lemma_rank_all(b, distinct_stacks(b));
    let ra = ranked_stacks(a);
    let rb = ranked_stacks(b);
    assert forall|x: Seq<u64>| #[trigger] ra.contains(x) <==> rb.contains(x) by {
        lemma_occ_distinct(a, x);
        lemma_occ_distinct(b, x);
    }
    assert forall|i: int, j: int| 0 <= i < j < rb.len() implies goes_before(a, rb[i], rb[j]) by {
        assert(goes_before(b, rb[i], rb[j]));
        assert(occurrences(a, rb[i]) == occurrences(b, rb[i]));
        assert(occurrences(a, rb[j]) == occurrences(b, rb[j]));
    }
    lemma_ranked_unique(a, ra, rb);
    lemma_records_same_counts(a, b, ra);
}

} // verus!
