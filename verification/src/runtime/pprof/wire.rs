//! Reading protobuf bytes back: the wire format's varints and top-level
//! fields, and what a reader finds in the bytes `Profile::marshal`
//! writes.
use vstd::prelude::*;
use crate::runtime::pprof::proto::{
    as_u64, enc_functions, enc_locations, enc_samples, enc_strings, enc_value_types, field_bytes,
    field_varint, field_varint_opt, idx_of, profile_bytes, string_table, value_type_msg, varint, Profile,
};

verus! {

/// One field as a reader sees it: tag, wire type, the value (for a
/// varint field) or the length (for a length-delimited one), and the
/// bytes of a length-delimited one.
pub type WireField = (nat, nat, nat, Seq<u8>);

/// The varint at the start of `b`, low group first: its value and how
/// many bytes it took, or `None` when `b` ends inside it.
pub open spec fn read_varint(b: Seq<u8>) -> Option<(nat, nat)>
    decreases b.len(),
{
    if b.len() == 0 {
        None
    } else if b[0] < 128 {
        Some((b[0] as nat, 1nat))
    } else {
        match read_varint(b.drop_first()) {
            Some((v, n)) => Some((((b[0] - 128) + 128 * v) as nat, n + 1)),
            None => None,
        }
    }
}

/// A varint read takes at least one byte and no more than there are.
pub proof fn lemma_read_varint_len(b: Seq<u8>)
    ensures
        read_varint(b) matches Some((v, n)) ==> 1 <= n <= b.len(),
    decreases b.len(),
{
    if b.len() > 0 && b[0] >= 128 {
        lemma_read_varint_len(b.drop_first());
    }
}

/// The fields of `b`, read one after the other to its end; `None` when
/// `b` is not a sequence of varint and length-delimited fields.
pub open spec fn read_fields(b: Seq<u8>) -> Option<Seq<WireField>>
    decreases b.len(),
{
    if b.len() == 0 {
        Some(Seq::empty())
    } else {
        match read_varint(b) {
            None => None,
            Some((k, n)) => {
                proof {
                    lemma_read_varint_len(b);
                }
                let b1 = b.subrange(n as int, b.len() as int);
                match read_varint(b1) {
                    None => None,
                    Some((v, m)) => {
                        proof {
                            lemma_read_varint_len(b1);
                        }
                        if k % 8 == 0 {
                            match read_fields(b1.subrange(m as int, b1.len() as int)) {
                                Some(rest) => Some(seq![(k / 8, 0nat, v, Seq::<u8>::empty())] + rest),
                                None => None,
                            }
                        } else if k % 8 == 2 && m + v <= b1.len() {
                            match read_fields(b1.subrange((m + v) as int, b1.len() as int)) {
                                Some(rest) => Some(
                                    seq![(k / 8, 2nat, v, b1.subrange(m as int, (m + v) as int))] + rest,
                                ),
                                None => None,
                            }
                        } else {
                            None
                        }
                    },
                }
            },
        }
    }
}

/// The values of the varint fields of `f` with tag `t`, in order.
pub open spec fn values_with_tag(f: Seq<WireField>, t: nat) -> Seq<nat>
    decreases f.len(),
{
    if f.len() == 0 {
        Seq::empty()
    } else {
        let rest = values_with_tag(f.drop_last(), t);
        if f.last().0 == t && f.last().1 == 0 {
            rest.push(f.last().2)
        } else {
            rest
        }
    }
}

/// The bodies of the length-delimited fields of `f` with tag `t`.
pub open spec fn bodies_with_tag(f: Seq<WireField>, t: nat) -> Seq<Seq<u8>>
    decreases f.len(),
{
    if f.len() == 0 {
        Seq::empty()
    } else {
        let rest = bodies_with_tag(f.drop_last(), t);
        if f.last().0 == t && f.last().1 == 2 {
            rest.push(f.last().3)
        } else {
            rest
        }
    }
}

/// A varint reads back as the number it was written from.
pub proof fn lemma_varint_reads_back(x: nat, r: Seq<u8>)
    ensures
        read_varint(varint(x) + r) == Some((x, varint(x).len())),
    decreases x,
{
    if x >= 128 {
        lemma_varint_reads_back(x / 128, r);
        let w = varint(x) + r;
        assert(w.drop_first() =~= varint(x / 128) + r);
        assert(w[0] == (x % 128 + 128) as u8);
        assert(x == 128 * (x / 128) + x % 128);
    }
}

/// A varint read that ends inside `a` reads the same with more after.
proof fn lemma_read_varint_prefix(a: Seq<u8>, b: Seq<u8>)
    requires
        read_varint(a) is Some,
    ensures
        read_varint(a + b) == read_varint(a),
    decreases a.len(),
{
    if a[0] >= 128 {
        assert((a + b).drop_first() =~= a.drop_first() + b);
        lemma_read_varint_prefix(a.drop_first(), b);
    }
}

/// Reading two field sequences one after the other gives the fields of
/// the first, then those of the second.
pub proof fn lemma_read_fields_concat(a: Seq<u8>, b: Seq<u8>)
    requires
        read_fields(a) is Some,
        read_fields(b) is Some,
    ensures
        read_fields(a + b) == Some(read_fields(a)->0 + read_fields(b)->0),
    decreases a.len(),
{
    if a.len() == 0 {
        assert(a + b =~= b);
        assert(read_fields(a)->0 + read_fields(b)->0 =~= read_fields(b)->0);
    } else {
        let (k, n) = read_varint(a)->0;
        lemma_read_varint_len(a);
        lemma_read_varint_prefix(a, b);
        let a1 = a.subrange(n as int, a.len() as int);
        assert((a + b).subrange(n as int, (a + b).len() as int) =~= a1 + b);
        let (v, m) = read_varint(a1)->0;
        lemma_read_varint_len(a1);
        lemma_read_varint_prefix(a1, b);
        if k % 8 == 0 {
            let a2 = a1.subrange(m as int, a1.len() as int);
            assert((a1 + b).subrange(m as int, (a1 + b).len() as int) =~= a2 + b);
            lemma_read_fields_concat(a2, b);
            let f = seq![(k / 8, 0nat, v, Seq::<u8>::empty())];
            assert(f + (read_fields(a2)->0 + read_fields(b)->0) =~= (f + read_fields(a2)->0) + read_fields(b)->0);
        } else {
            let a2 = a1.subrange((m + v) as int, a1.len() as int);
            assert((a1 + b).subrange((m + v) as int, (a1 + b).len() as int) =~= a2 + b);
            assert((a1 + b).subrange(m as int, (m + v) as int) =~= a1.subrange(m as int, (m + v) as int));
            lemma_read_fields_concat(a2, b);
            let f = seq![(k / 8, 2nat, v, a1.subrange(m as int, (m + v) as int))];
            assert(f + (read_fields(a2)->0 + read_fields(b)->0) =~= (f + read_fields(a2)->0) + read_fields(b)->0);
        }
    }
}

/// A varint field reads back as one field: its tag, wire type 0, value.
pub proof fn lemma_varint_field_reads_back(t: nat, x: nat)
    ensures
        read_fields(field_varint(t, x)) == Some(seq![(t, 0nat, x, Seq::<u8>::empty())]),
{
    let b = field_varint(t, x);
    lemma_varint_reads_back(t * 8, varint(x));
    lemma_varint_reads_back(x, Seq::empty());
    assert(varint(x) + Seq::<u8>::empty() =~= varint(x));
    let n = varint(t * 8).len();
    assert(read_varint(b) == Some((t * 8, n)));
    let b1 = b.subrange(n as int, b.len() as int);
    assert(b1 =~= varint(x));
    let m = varint(x).len();
    assert(read_varint(b1) == Some((x, m)));
    let tail = b1.subrange(m as int, b1.len() as int);
    assert(tail =~= Seq::<u8>::empty());
    assert(read_fields(tail) == Some(Seq::<WireField>::empty()));
    assert((t * 8) % 8 == 0 && (t * 8) / 8 == t);
    assert(seq![(t, 0nat, x, Seq::<u8>::empty())] + Seq::<WireField>::empty() =~= seq![(t, 0nat, x, Seq::<u8>::empty())]);
    assert(b.len() > 0);
}

/// A length-delimited field reads back as one field: its tag, wire type
/// 2, length and bytes.
pub proof fn lemma_bytes_field_reads_back(t: nat, body: Seq<u8>)
    ensures
        read_fields(field_bytes(t, body)) == Some(seq![(t, 2nat, body.len(), body)]),
{
    let b = field_bytes(t, body);
    assert(b =~= varint(t * 8 + 2) + (varint(body.len()) + body));
    lemma_varint_reads_back(t * 8 + 2, varint(body.len()) + body);
    let n = varint(t * 8 + 2).len();
    assert(read_varint(b) == Some(((t * 8 + 2) as nat, n)));
    let b1 = b.subrange(n as int, b.len() as int);
    assert(b1 =~= varint(body.len()) + body);
    lemma_varint_reads_back(body.len(), body);
    let m = varint(body.len()).len();
    assert(read_varint(b1) == Some((body.len(), m)));
    assert(b1.subrange(m as int, (m + body.len()) as int) =~= body);
    let tail = b1.subrange((m + body.len()) as int, b1.len() as int);
    assert(tail =~= Seq::<u8>::empty());
    assert(read_fields(tail) == Some(Seq::<WireField>::empty()));
    assert((t * 8 + 2) % 8 == 2 && (t * 8 + 2) / 8 == t);
    assert(seq![(t, 2nat, body.len(), body)] + Seq::<WireField>::empty() =~= seq![(t, 2nat, body.len(), body)]);
    assert(b.len() > 0);
}

/// The tag-`t` values of two field lists one after the other.
pub proof fn lemma_values_concat(f: Seq<WireField>, g: Seq<WireField>, t: nat)
    ensures
        values_with_tag(f + g, t) == values_with_tag(f, t) + values_with_tag(g, t),
        bodies_with_tag(f + g, t) == bodies_with_tag(f, t) + bodies_with_tag(g, t),
    decreases g.len(),
{
    if g.len() == 0 {
        assert(f + g =~= f);
        assert(values_with_tag(f, t) + values_with_tag(g, t) =~= values_with_tag(f, t));
        assert(bodies_with_tag(f, t) + bodies_with_tag(g, t) =~= bodies_with_tag(f, t));
    } else {
        assert((f + g).drop_last() =~= f + g.drop_last());
        lemma_values_concat(f, g.drop_last(), t);
        assert((values_with_tag(f, t) + values_with_tag(g.drop_last(), t)).push(g.last().2) =~= values_with_tag(f, t)
            + values_with_tag(g.drop_last(), t).push(g.last().2));
        assert((bodies_with_tag(f, t) + bodies_with_tag(g.drop_last(), t)).push(g.last().3) =~= bodies_with_tag(f, t)
            + bodies_with_tag(g.drop_last(), t).push(g.last().3));
    }
}

/// Every field of `f` has the tag `t`.
pub open spec fn all_tagged(f: Seq<WireField>, t: nat) -> bool {
    forall|k: int| 0 <= k < f.len() ==> (#[trigger] f[k]).0 == t
}

/// A field list all of tag `t` has no values or bodies under another tag.
proof fn lemma_other_tag_empty(f: Seq<WireField>, t: nat, u: nat)
    requires
        all_tagged(f, t),
        t != u,
    ensures
        values_with_tag(f, u).len() == 0,
        bodies_with_tag(f, u).len() == 0,
    decreases f.len(),
{
    if f.len() > 0 {
        assert(all_tagged(f.drop_last(), t)) by {
            assert forall|k: int| 0 <= k < f.drop_last().len() implies (#[trigger] f.drop_last()[k]).0 == t by {
                assert(f.drop_last()[k] == f[k]);
            }
        }
        lemma_other_tag_empty(f.drop_last(), t, u);
        assert(f.last() == f[f.len() - 1]);
    }
}

/// Appending one more length-delimited field of tag `t` keeps a field
/// list read whole and all of tag `t`.
proof fn lemma_push_bytes_field(a: Seq<u8>, t: nat, body: Seq<u8>)
    requires
        read_fields(a) is Some,
        all_tagged(read_fields(a)->0, t),
    ensures
        read_fields(a + field_bytes(t, body)) is Some,
        all_tagged(read_fields(a + field_bytes(t, body))->0, t),
{
    lemma_bytes_field_reads_back(t, body);
    lemma_read_fields_concat(a, field_bytes(t, body));
    let f = read_fields(a)->0 + seq![(t, 2nat, body.len(), body)];
    assert forall|k: int| 0 <= k < f.len() implies (#[trigger] f[k]).0 == t by {
        if k < read_fields(a)->0.len() {
            assert(f[k] == read_fields(a)->0[k]);
        }
    }
}

proof fn lemma_value_types_read(st: Seq<Seq<u8>>, s: Seq<crate::runtime::pprof::proto::ValueType>)
    ensures
        read_fields(enc_value_types(st, s)) is Some,
        all_tagged(read_fields(enc_value_types(st, s))->0, 1),
    decreases s.len(),
{
    if s.len() > 0 {
        lemma_value_types_read(st, s.drop_last());
        lemma_push_bytes_field(enc_value_types(st, s.drop_last()), 1, value_type_msg(st, s.last()));
    }
}

proof fn lemma_samples_read(s: Seq<crate::runtime::pprof::proto::Sample>)
    ensures
        read_fields(enc_samples(s)) is Some,
        all_tagged(read_fields(enc_samples(s))->0, 2),
    decreases s.len(),
{
    if s.len() > 0 {
        lemma_samples_read(s.drop_last());
        lemma_push_bytes_field(enc_samples(s.drop_last()), 2, crate::runtime::pprof::proto::sample_msg(s.last()));
    }
}

proof fn lemma_locations_read(s: Seq<crate::runtime::pprof::proto::Location>)
    ensures
        read_fields(enc_locations(s)) is Some,
        all_tagged(read_fields(enc_locations(s))->0, 4),
    decreases s.len(),
{
    if s.len() > 0 {
        lemma_locations_read(s.drop_last());
        lemma_push_bytes_field(enc_locations(s.drop_last()), 4, crate::runtime::pprof::proto::location_msg(s.last()));
    }
}

proof fn lemma_functions_read(st: Seq<Seq<u8>>, s: Seq<crate::runtime::pprof::proto::Function>)
    ensures
        read_fields(enc_functions(st, s)) is Some,
        all_tagged(read_fields(enc_functions(st, s))->0, 5),
    decreases s.len(),
{
    if s.len() > 0 {
        lemma_functions_read(st, s.drop_last());
        lemma_push_bytes_field(
            enc_functions(st, s.drop_last()),
            5,
            crate::runtime::pprof::proto::function_msg(st, s.last()),
        );
    }
}

proof fn lemma_strings_read(s: Seq<Seq<u8>>)
    ensures
        read_fields(enc_strings(s)) is Some,
        all_tagged(read_fields(enc_strings(s))->0, 6),
        bodies_with_tag(read_fields(enc_strings(s))->0, 6) == s,
    decreases s.len(),
{
    if s.len() > 0 {
        lemma_strings_read(s.drop_last());
        lemma_push_bytes_field(enc_strings(s.drop_last()), 6, s.last());
        lemma_bytes_field_reads_back(6, s.last());
        lemma_read_fields_concat(enc_strings(s.drop_last()), field_bytes(6, s.last()));
        lemma_values_concat(read_fields(enc_strings(s.drop_last()))->0, seq![(6nat, 2nat, s.last().len(), s.last())], 6);
        assert(s.drop_last().push(s.last()) =~= s);
        let one = seq![(6nat, 2nat, s.last().len(), s.last())];
        assert(one.drop_last() =~= Seq::<WireField>::empty());
        reveal_with_fuel(bodies_with_tag, 2);
        assert(bodies_with_tag(one, 6) =~= seq![s.last()]);
    }
}

/// An optional varint field reads back as that field, or nothing when
/// the value is zero.
proof fn lemma_opt_field_read(t: nat, x: nat)
    ensures
        read_fields(field_varint_opt(t, x)) is Some,
        all_tagged(read_fields(field_varint_opt(t, x))->0, t),
        values_with_tag(read_fields(field_varint_opt(t, x))->0, t) == (if x == 0 {
            Seq::<nat>::empty()
        } else {
            seq![x]
        }),
{
    if x != 0 {
        lemma_varint_field_reads_back(t, x);
        let one = seq![(t, 0nat, x, Seq::<u8>::empty())];
        assert(one.drop_last() =~= Seq::<WireField>::empty());
        reveal_with_fuel(values_with_tag, 2);
        assert(values_with_tag(one, t) =~= seq![x]);
    }
}

/// The pieces of a profile's bytes, in order.
pub open spec fn profile_pieces(p: Profile) -> Seq<Seq<u8>> {
    let st = string_table(p);
    seq![
        enc_value_types(st, p.sample_type@),
        enc_samples(p.sample@),
        enc_locations(p.location@),
        enc_functions(st, p.function@),
        enc_strings(st),
        field_varint_opt(9, as_u64(p.time_nanos)),
        field_varint_opt(10, as_u64(p.duration_nanos)),
        match p.period_type {
            Some(pt) => field_bytes(11, value_type_msg(st, pt)),
            None => Seq::empty(),
        },
        field_varint_opt(12, as_u64(p.period)),
        field_varint_opt(14, idx_of(st, p.default_sample_type@)),
    ]
}

/// The pieces one after the other.
pub open spec fn join(s: Seq<Seq<u8>>) -> Seq<u8>
    decreases s.len(),
{
    if s.len() == 0 {
        Seq::empty()
    } else {
        join(s.drop_last()) + s.last()
    }
}

/// Pieces that each read whole, each all under its own tag, read whole
/// one after the other; the tag-`u` values and bodies come only from the
/// piece with tag `u`.
proof fn lemma_join_read(s: Seq<Seq<u8>>, tags: Seq<nat>, u: nat)
    requires
        s.len() == tags.len(),
        forall|i: int| 0 <= i < s.len() ==> #[trigger] read_fields(s[i]) is Some && all_tagged(read_fields(s[i])->0, tags[i]),
        forall|i: int, j: int| 0 <= i < j < tags.len() ==> tags[i] != tags[j],
    ensures
        read_fields(join(s)) is Some,
        forall|i: int| 0 <= i < s.len() && tags[i] == u ==> (values_with_tag(read_fields(join(s))->0, u) == values_with_tag(read_fields(#[trigger] s[i])->0, u)
            && bodies_with_tag(read_fields(join(s))->0, u) == bodies_with_tag(read_fields(s[i])->0, u)),
        (forall|i: int| 0 <= i < s.len() ==> tags[i] != u) ==> values_with_tag(read_fields(join(s))->0, u).len() == 0
            && bodies_with_tag(read_fields(join(s))->0, u).len() == 0,
    decreases s.len(),
{
    if s.len() > 0 {
        let p = s.drop_last();
        let pt = tags.drop_last();
        assert forall|i: int| 0 <= i < p.len() implies #[trigger] read_fields(p[i]) is Some && all_tagged(read_fields(p[i])->0, pt[i]) by {
            assert(p[i] == s[i]);
        }
        lemma_join_read(p, pt, u);
        let l = s.len() - 1;
        assert(read_fields(s[l]) is Some);
        lemma_read_fields_concat(join(p), s.last());
        lemma_values_concat(read_fields(join(p))->0, read_fields(s.last())->0, u);
        if tags[l] != u {
            lemma_other_tag_empty(read_fields(s.last())->0, tags[l], u);
        } else {
            assert forall|i: int| 0 <= i < p.len() implies pt[i] != u by {
                assert(pt[i] == tags[i]);
            }
            assert(values_with_tag(read_fields(join(p))->0, u) + values_with_tag(read_fields(s.last())->0, u) =~= values_with_tag(read_fields(s.last())->0, u));
            assert(bodies_with_tag(read_fields(join(p))->0, u) + bodies_with_tag(read_fields(s.last())->0, u) =~= bodies_with_tag(read_fields(s.last())->0, u));
        }
        assert forall|i: int| 0 <= i < s.len() && tags[i] == u implies (values_with_tag(read_fields(join(s))->0, u) == values_with_tag(read_fields(#[trigger] s[i])->0, u)
            && bodies_with_tag(read_fields(join(s))->0, u) == bodies_with_tag(read_fields(s[i])->0, u)) by {
            if i < l {
                assert(p[i] == s[i]);
                assert(pt[i] == u);
                lemma_other_tag_empty(read_fields(s.last())->0, tags[l], u);
                assert(values_with_tag(read_fields(join(p))->0, u) + values_with_tag(read_fields(s.last())->0, u) =~= values_with_tag(read_fields(join(p))->0, u));
                assert(bodies_with_tag(read_fields(join(p))->0, u) + bodies_with_tag(read_fields(s.last())->0, u) =~= bodies_with_tag(read_fields(join(p))->0, u));
            }
        }
    }
}

/// What a reader finds in a profile's bytes: they read whole as
/// top-level fields; the string table comes back from the tag-6 fields;
/// `time_nanos` (tag 9), `duration_nanos` (tag 10) and `period` (tag 12)
/// each come back as one varint field when nonzero and are absent when
/// zero; the period type is one tag-11 field when there is one; and the
/// default sample type's string index (tag 14) comes back when nonzero.
#[verifier::rlimit(100)]
pub proof fn lemma_profile_fields(p: Profile)
    ensures
        read_fields(profile_bytes(p)) is Some,
        ({
            let f = read_fields(profile_bytes(p))->0;
            let st = string_table(p);
            &&& bodies_with_tag(f, 6) == st
            &&& values_with_tag(f, 9) == (if p.time_nanos == 0 {
                Seq::<nat>::empty()
            } else {
                seq![as_u64(p.time_nanos)]
            })
            &&& values_with_tag(f, 10) == (if p.duration_nanos == 0 {
                Seq::<nat>::empty()
            } else {
                seq![as_u64(p.duration_nanos)]
            })
            &&& values_with_tag(f, 12) == (if p.period == 0 {
                Seq::<nat>::empty()
            } else {
                seq![as_u64(p.period)]
            })
            &&& bodies_with_tag(f, 11) == (match p.period_type {
                Some(pt) => seq![value_type_msg(st, pt)],
                None => Seq::<Seq<u8>>::empty(),
            })
            &&& values_with_tag(f, 14) == (if idx_of(st, p.default_sample_type@) == 0 {
                Seq::<nat>::empty()
            } else {
                seq![idx_of(st, p.default_sample_type@)]
            })
        }),
{
    let st = string_table(p);
    let s = profile_pieces(p);
    let tags = seq![1nat, 2nat, 4nat, 5nat, 6nat, 9nat, 10nat, 11nat, 12nat, 14nat];
    lemma_value_types_read(st, p.sample_type@);
    lemma_samples_read(p.sample@);
    lemma_locations_read(p.location@);
    lemma_functions_read(st, p.function@);
    lemma_strings_read(st);
    lemma_opt_field_read(9, as_u64(p.time_nanos));
    lemma_opt_field_read(10, as_u64(p.duration_nanos));
    lemma_opt_field_read(12, as_u64(p.period));
    lemma_opt_field_read(14, idx_of(st, p.default_sample_type@));
    match p.period_type {
        Some(pt) => {
            lemma_bytes_field_reads_back(11, value_type_msg(st, pt));
            let one = seq![(11nat, 2nat, value_type_msg(st, pt).len(), value_type_msg(st, pt))];
            assert(one.drop_last() =~= Seq::<WireField>::empty());
            reveal_with_fuel(bodies_with_tag, 2);
            assert(bodies_with_tag(one, 11) =~= seq![value_type_msg(st, pt)]);
        },
        None => {
            assert(read_fields(Seq::<u8>::empty()) == Some(Seq::<WireField>::empty()));
        },
    }
    assert(join(s) =~= profile_bytes(p)) by {
        reveal_with_fuel(join, 11);
    }
    assert forall|i: int| 0 <= i < s.len() implies #[trigger] read_fields(s[i]) is Some && all_tagged(read_fields(s[i])->0, tags[i]) by {
        if i == 7 {
            if p.period_type is Some {
                let pt = p.period_type->0;
                let one = seq![(11nat, 2nat, value_type_msg(st, pt).len(), value_type_msg(st, pt))];
                assert(all_tagged(one, 11));
            } else {
                assert(all_tagged(Seq::<WireField>::empty(), 11));
            }
        }
    }
    lemma_join_read(s, tags, 6);
    lemma_join_read(s, tags, 9);
    lemma_join_read(s, tags, 10);
    lemma_join_read(s, tags, 11);
    lemma_join_read(s, tags, 12);
    lemma_join_read(s, tags, 14);
    assert(tags[4] == 6 && tags[5] == 9 && tags[6] == 10 && tags[7] == 11 && tags[8] == 12 && tags[9] == 14);
}

} // verus!
