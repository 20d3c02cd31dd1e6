//! The profile.proto wire format, written by hand: varints are LEB128
//! and everything else is a length-delimited byte string.
//!
//! Field numbers are those of Go's `internal/profile` encoder:
//!
//!   Profile   1 sample_type  2 sample  4 location  5 function
//!             6 string_table  9 time_nanos  10 duration_nanos
//!             11 period_type  12 period  14 default_sample_type
//!   ValueType 1 type  2 unit                 (string-table indexes)
//!   Sample    1 location_id (repeated)  2 value (repeated)
//!   Location  1 id  3 address  4 line
//!   Line      1 function_id  2 line
//!   Function  1 id  2 name  3 system_name  4 filename  5 start_line
//!
//! Every string is an index into the string table, whose entry 0 is the
//! empty string. A repeated varint field is packed when it has more than
//! two elements, and written as separate fields otherwise; a zero
//! optional field is left out.
use vstd::prelude::*;
use crate::runtime::symbolize::elf::bytes_equal;

verus! {

/// Wire type 0: varint.
pub const WIRE_VARINT: u64 = 0;
/// Wire type 2: length-delimited.
pub const WIRE_BYTES: u64 = 2;

/// A `(type, unit)` pair naming what a sample's values measure.
pub struct ValueType {
    pub ty: Vec<u8>,
    pub unit: Vec<u8>,
}

/// One sample: the stack it was taken on (location ids, leaf first) and
/// one value per sample type.
pub struct Sample {
    pub location_id: Vec<u64>,
    pub value: Vec<i64>,
}

/// One `(function, line)` pair of a location.
pub struct Line {
    pub function_id: u64,
    pub line: i64,
}

/// A program counter and the source lines it maps to.
pub struct Location {
    pub id: u64,
    pub address: u64,
    pub line: Vec<Line>,
}

/// A function and where it is.
pub struct Function {
    pub id: u64,
    pub name: Vec<u8>,
    pub system_name: Vec<u8>,
    pub filename: Vec<u8>,
    pub start_line: i64,
}

/// A whole profile, ready to encode.
pub struct Profile {
    pub sample_type: Vec<ValueType>,
    pub sample: Vec<Sample>,
    pub location: Vec<Location>,
    pub function: Vec<Function>,
    pub time_nanos: i64,
    pub duration_nanos: i64,
    pub period_type: Option<ValueType>,
    pub period: i64,
    pub default_sample_type: Vec<u8>,
}

/// `x` as a base-128 varint, low group first.
pub open spec fn varint(x: nat) -> Seq<u8>
    decreases x,
{
    if x < 128 {
        seq![x as u8]
    } else {
        seq![(x % 128 + 128) as u8] + varint(x / 128)
    }
}

/// The bits of a signed value as the wire carries them (no zigzag).
pub open spec fn as_u64(x: i64) -> nat {
    if x >= 0 {
        x as nat
    } else {
        (x + 0x1_0000_0000_0000_0000) as nat
    }
}

/// A varint field.
pub open spec fn field_varint(tag: nat, x: nat) -> Seq<u8> {
    varint(tag * 8) + varint(x)
}

/// A varint field, left out when it is zero.
pub open spec fn field_varint_opt(tag: nat, x: nat) -> Seq<u8> {
    if x == 0 {
        Seq::empty()
    } else {
        field_varint(tag, x)
    }
}

/// A length-delimited field.
pub open spec fn field_bytes(tag: nat, body: Seq<u8>) -> Seq<u8> {
    varint(tag * 8 + 2) + varint(body.len()) + body
}

/// The values of `s` as varints, back to back.
pub open spec fn packed(s: Seq<u64>) -> Seq<u8>
    decreases s.len(),
{
    if s.len() == 0 {
        Seq::empty()
    } else {
        packed(s.drop_last()) + varint(s.last() as nat)
    }
}

/// The values of `s` as one varint field each.
pub open spec fn unpacked(tag: nat, s: Seq<u64>) -> Seq<u8>
    decreases s.len(),
{
    if s.len() == 0 {
        Seq::empty()
    } else {
        unpacked(tag, s.drop_last()) + field_varint(tag, s.last() as nat)
    }
}

/// A repeated varint field: packed past two elements.
pub open spec fn field_uint64s(tag: nat, s: Seq<u64>) -> Seq<u8> {
    if s.len() > 2 {
        field_bytes(tag, packed(s))
    } else {
        unpacked(tag, s)
    }
}

/// `st` with `s` added unless it is already there.
pub open spec fn intern(st: Seq<Seq<u8>>, s: Seq<u8>) -> Seq<Seq<u8>> {
    if st.contains(s) {
        st
    } else {
        st.push(s)
    }
}

/// The strings of `ss` interned into `st`, in order.
pub open spec fn intern_all(st: Seq<Seq<u8>>, ss: Seq<Seq<u8>>) -> Seq<Seq<u8>>
    decreases ss.len(),
{
    if ss.len() == 0 {
        st
    } else {
        intern(intern_all(st, ss.drop_last()), ss.last())
    }
}

/// The first index of `s` in `st` from `i` on, or 0 when it is not
/// there.
pub open spec fn idx_from(st: Seq<Seq<u8>>, s: Seq<u8>, i: int) -> nat
    decreases st.len() - i,
{
    if i < 0 || i >= st.len() {
        0
    } else if st[i] == s {
        i as nat
    } else {
        idx_from(st, s, i + 1)
    }
}

/// The string-table index of `s`.
pub open spec fn idx_of(st: Seq<Seq<u8>>, s: Seq<u8>) -> nat {
    idx_from(st, s, 0)
}

/// The type and unit of each value type, in order.
pub open spec fn type_strings(s: Seq<ValueType>) -> Seq<Seq<u8>>
    decreases s.len(),
{
    if s.len() == 0 {
        Seq::empty()
    } else {
        type_strings(s.drop_last()) + seq![s.last().ty@, s.last().unit@]
    }
}

/// The name, system name and file of each function, in order.
pub open spec fn function_strings(s: Seq<Function>) -> Seq<Seq<u8>>
    decreases s.len(),
{
    if s.len() == 0 {
        Seq::empty()
    } else {
        function_strings(s.drop_last()) + seq![
            s.last().name@,
            s.last().system_name@,
            s.last().filename@,
        ]
    }
}

/// The strings a profile uses, in the order the table lists them:
/// each sample type's type and unit, each function's name, system name
/// and file, the period type's type and unit, the default sample type.
pub open spec fn string_order(p: Profile) -> Seq<Seq<u8>> {
    type_strings(p.sample_type@) + function_strings(p.function@) + match p.period_type {
        Some(pt) => seq![pt.ty@, pt.unit@],
        None => Seq::empty(),
    } + seq![p.default_sample_type@]
}

/// The string table: the empty string, then each string of the profile
/// the first time it is used.
pub open spec fn string_table(p: Profile) -> Seq<Seq<u8>> {
    intern_all(seq![Seq::<u8>::empty()], string_order(p))
}

/// A `ValueType` message.
pub open spec fn value_type_msg(st: Seq<Seq<u8>>, t: ValueType) -> Seq<u8> {
    field_varint_opt(1, idx_of(st, t.ty@)) + field_varint_opt(2, idx_of(st, t.unit@))
}

/// Field 1 of each value type.
pub open spec fn enc_value_types(st: Seq<Seq<u8>>, s: Seq<ValueType>) -> Seq<u8>
    decreases s.len(),
{
    if s.len() == 0 {
        Seq::empty()
    } else {
        enc_value_types(st, s.drop_last()) + field_bytes(1, value_type_msg(st, s.last()))
    }
}

/// Each value as a field 2 varint, zeros too.
pub open spec fn enc_values(s: Seq<i64>) -> Seq<u8>
    decreases s.len(),
{
    if s.len() == 0 {
        Seq::empty()
    } else {
        enc_values(s.drop_last()) + field_varint(2, as_u64(s.last()))
    }
}

/// A `Sample` message.
pub open spec fn sample_msg(s: Sample) -> Seq<u8> {
    field_uint64s(1, s.location_id@) + enc_values(s.value@)
}

/// Field 2 of each sample.
pub open spec fn enc_samples(s: Seq<Sample>) -> Seq<u8>
    decreases s.len(),
{
    if s.len() == 0 {
        Seq::empty()
    } else {
        enc_samples(s.drop_last()) + field_bytes(2, sample_msg(s.last()))
    }
}

/// A `Line` message.
pub open spec fn line_msg(l: Line) -> Seq<u8> {
    field_varint_opt(1, l.function_id as nat) + field_varint_opt(2, as_u64(l.line))
}

/// Field 4 of each line.
pub open spec fn enc_lines(s: Seq<Line>) -> Seq<u8>
    decreases s.len(),
{
    if s.len() == 0 {
        Seq::empty()
    } else {
        enc_lines(s.drop_last()) + field_bytes(4, line_msg(s.last()))
    }
}

/// A `Location` message.
pub open spec fn location_msg(l: Location) -> Seq<u8> {
    field_varint_opt(1, l.id as nat) + field_varint_opt(3, l.address as nat) + enc_lines(l.line@)
}

/// Field 4 of each location.
pub open spec fn enc_locations(s: Seq<Location>) -> Seq<u8>
    decreases s.len(),
{
    if s.len() == 0 {
        Seq::empty()
    } else {
        enc_locations(s.drop_last()) + field_bytes(4, location_msg(s.last()))
    }
}

/// A `Function` message.
pub open spec fn function_msg(st: Seq<Seq<u8>>, f: Function) -> Seq<u8> {
    field_varint_opt(1, f.id as nat) + field_varint_opt(2, idx_of(st, f.name@)) + field_varint_opt(
        3,
        idx_of(st, f.system_name@),
    ) + field_varint_opt(4, idx_of(st, f.filename@)) + field_varint_opt(5, as_u64(f.start_line))
}

/// Field 5 of each function.
pub open spec fn enc_functions(st: Seq<Seq<u8>>, s: Seq<Function>) -> Seq<u8>
    decreases s.len(),
{
    if s.len() == 0 {
        Seq::empty()
    } else {
        enc_functions(st, s.drop_last()) + field_bytes(5, function_msg(st, s.last()))
    }
}

/// Field 6 of each string, the empty one too.
pub open spec fn enc_strings(s: Seq<Seq<u8>>) -> Seq<u8>
    decreases s.len(),
{
    if s.len() == 0 {
        Seq::empty()
    } else {
        enc_strings(s.drop_last()) + field_bytes(6, s.last())
    }
}

/// The bytes of a profile.
pub open spec fn profile_bytes(p: Profile) -> Seq<u8> {
    let st = string_table(p);
    enc_value_types(st, p.sample_type@) + enc_samples(p.sample@) + enc_locations(p.location@)
        + enc_functions(st, p.function@) + enc_strings(st) + field_varint_opt(
        9,
        as_u64(p.time_nanos),
    ) + field_varint_opt(10, as_u64(p.duration_nanos)) + match p.period_type {
        Some(pt) => field_bytes(11, value_type_msg(st, pt)),
        None => Seq::empty(),
    } + field_varint_opt(12, as_u64(p.period)) + field_varint_opt(
        14,
        idx_of(st, p.default_sample_type@),
    )
}

/// A field key: `(tag << 3) | wire`.
fn key(tag: u64, wire: u64) -> (k: u64)
    requires
        tag < 0x2000_0000_0000_0000,
        wire < 8,
    ensures
        k == tag * 8 + wire,
{
    let k = (tag << 3u64) | wire;
    assert(k == tag * 8 + wire) by (bit_vector)
        requires
            k == (tag << 3u64) | wire,
            tag < 0x2000_0000_0000_0000,
            wire < 8,
    ;
    k
}

/// Appends `x` as a varint.
fn put_varint(b: &mut Vec<u8>, x: u64)
    ensures
        final(b)@ == old(b)@ + varint(x as nat),
{
    let mut v = x;
    while v >= 0x80
        invariant
            b@ + varint(v as nat) == old(b)@ + varint(x as nat),
        decreases v,
    {
        let low = ((v & 0x7f) as u8) | 0x80;
        assert(low == v % 128 + 128 && (v >> 7u64) == v / 128) by (bit_vector)
            requires
                low == ((v & 0x7f) as u8) | 0x80,
                v >= 0x80,
        ;
        let ghost b0 = b@;
        b.push(low);
        v = v >> 7u64;
        assert(b0 + varint((v * 128 + low - 128) as nat) == b@ + varint(v as nat)) by {
            assert(b@ + varint(v as nat) =~= b0 + (seq![low] + varint(v as nat)));
        }
    }
    let ghost b0 = b@;
    b.push(v as u8);
    assert(b@ =~= b0 + varint(v as nat));
}

/// Appends the bytes of `s`.
pub(crate) fn append_bytes(b: &mut Vec<u8>, s: &[u8])
    ensures
        final(b)@ == old(b)@ + s@,
{
    let mut i: usize = 0;
    while i < s.len()
        invariant
            i <= s@.len(),
            b@ == old(b)@ + s@.subrange(0, i as int),
        decreases s@.len() - i,
    {
        b.push(s[i]);
        i = i + 1;
        assert(b@ =~= old(b)@ + s@.subrange(0, i as int));
    }
    assert(s@.subrange(0, s@.len() as int) =~= s@);
}

/// Appends a varint field.
fn put_uint64(b: &mut Vec<u8>, tag: u64, x: u64)
    requires
        tag < 0x2000_0000_0000_0000,
    ensures
        final(b)@ == old(b)@ + field_varint(tag as nat, x as nat),
{
    let k = key(tag, WIRE_VARINT);
    put_varint(b, k);
    put_varint(b, x);
    assert(b@ =~= old(b)@ + field_varint(tag as nat, x as nat));
}

/// Appends a varint field unless it is zero.
fn put_uint64_opt(b: &mut Vec<u8>, tag: u64, x: u64)
    requires
        tag < 0x2000_0000_0000_0000,
    ensures
        final(b)@ == old(b)@ + field_varint_opt(tag as nat, x as nat),
{
    if x == 0 {
        assert(b@ =~= old(b)@ + field_varint_opt(tag as nat, x as nat));
        return;
    }
    put_uint64(b, tag, x);
}

/// The two's-complement bits of `x`, which the wire carries as they
/// are.
fn bits_of(x: i64) -> (r: u64)
    ensures
        r as nat == as_u64(x),
{
    if x >= 0 {
        x as u64
    } else {
        ((x + 0x7fff_ffff_ffff_ffff + 1) as u64) + 0x8000_0000_0000_0000
    }
}

/// Appends a signed varint field (plain varint of the bits, no zigzag).
fn put_int64(b: &mut Vec<u8>, tag: u64, x: i64)
    requires
        tag < 0x2000_0000_0000_0000,
    ensures
        final(b)@ == old(b)@ + field_varint(tag as nat, as_u64(x)),
{
    put_uint64(b, tag, bits_of(x));
}

/// Appends a signed varint field unless it is zero.
fn put_int64_opt(b: &mut Vec<u8>, tag: u64, x: i64)
    requires
        tag < 0x2000_0000_0000_0000,
    ensures
        final(b)@ == old(b)@ + field_varint_opt(tag as nat, as_u64(x)),
{
    put_uint64_opt(b, tag, bits_of(x));
}

/// Appends a length-delimited field.
fn put_bytes(b: &mut Vec<u8>, tag: u64, body: &[u8])
    requires
        tag < 0x2000_0000_0000_0000,
    ensures
        final(b)@ == old(b)@ + field_bytes(tag as nat, body@),
{
    let k = key(tag, WIRE_BYTES);
    put_varint(b, k);
    put_varint(b, body.len() as u64);
    append_bytes(b, body);
    assert(b@ =~= old(b)@ + field_bytes(tag as nat, body@));
}

/// Appends a repeated varint field: packed past two elements.
fn put_uint64s(b: &mut Vec<u8>, tag: u64, xs: &[u64])
    requires
        tag < 0x2000_0000_0000_0000,
    ensures
        final(b)@ == old(b)@ + field_uint64s(tag as nat, xs@),
{
    if xs.len() > 2 {
        let mut packed_bytes: Vec<u8> = Vec::new();
        let mut i: usize = 0;
        while i < xs.len()
            invariant
                i <= xs@.len(),
                packed_bytes@ == packed(xs@.subrange(0, i as int)),
            decreases xs@.len() - i,
        {
            put_varint(&mut packed_bytes, xs[i]);
            i = i + 1;
            assert(xs@.subrange(0, i as int).drop_last() =~= xs@.subrange(0, i - 1));
        }
        assert(xs@.subrange(0, xs@.len() as int) =~= xs@);
        put_bytes(b, tag, packed_bytes.as_slice());
        return;
    }
    let mut i: usize = 0;
    assert(b@ =~= old(b)@ + unpacked(tag as nat, xs@.subrange(0, 0)));
    while i < xs.len()
        invariant
            i <= xs@.len(),
            tag < 0x2000_0000_0000_0000,
            b@ == old(b)@ + unpacked(tag as nat, xs@.subrange(0, i as int)),
        decreases xs@.len() - i,
    {
        let ghost b0 = b@;
        put_uint64(b, tag, xs[i]);
        i = i + 1;
        assert(xs@.subrange(0, i as int).drop_last() =~= xs@.subrange(0, i - 1));
        assert(b@ =~= old(b)@ + unpacked(tag as nat, xs@.subrange(0, i as int)));
    }
    assert(xs@.subrange(0, xs@.len() as int) =~= xs@);
}

/// The contents of a table of byte strings.
pub open spec fn strs(v: Seq<Vec<u8>>) -> Seq<Seq<u8>> {
    v.map_values(|x: Vec<u8>| x@)
}

/// Interning `a` then `b` is interning `a + b`.
pub proof fn lemma_intern_all_concat(st: Seq<Seq<u8>>, a: Seq<Seq<u8>>, b: Seq<Seq<u8>>)
    ensures
        intern_all(intern_all(st, a), b) == intern_all(st, a + b),
    decreases b.len(),
{
    if b.len() == 0 {
        assert(a + b =~= a);
    } else {
        lemma_intern_all_concat(st, a, b.drop_last());
        assert((a + b).drop_last() =~= a + b.drop_last());
    }
}

/// A copy of `s`.
fn copy_bytes(s: &[u8]) -> (v: Vec<u8>)
    ensures
        v@ == s@,
{
    let mut v: Vec<u8> = Vec::new();
    append_bytes(&mut v, s);
    assert(v@ =~= s@);
    v
}

/// Adds `s` to the table unless it is there.
fn add_string(st: &mut Vec<Vec<u8>>, s: &[u8])
    ensures
        strs(final(st)@) == intern(strs(old(st)@), s@),
{
    let mut i: usize = 0;
    while i < st.len()
        invariant
            i <= st@.len(),
            *st == *old(st),
            forall|k: int| 0 <= k < i ==> strs(st@)[k] != s@,
        decreases st@.len() - i,
    {
        if bytes_equal(st[i].as_slice(), s) {
            assert(strs(st@)[i as int] == s@);
            return;
        }
        i = i + 1;
    }
    assert(!strs(st@).contains(s@));
    let ghost d0 = strs(st@);
    st.push(copy_bytes(s));
    assert(strs(st@) =~= d0.push(s@));
}

/// The index of `s` in the table, or 0.
fn string_index(st: &Vec<Vec<u8>>, s: &[u8]) -> (r: usize)
    ensures
        r as nat == idx_of(strs(st@), s@),
{
    let mut i: usize = 0;
    while i < st.len()
        invariant
            i <= st@.len(),
            idx_of(strs(st@), s@) == idx_from(strs(st@), s@, i as int),
        decreases st@.len() - i,
    {
        if bytes_equal(st[i].as_slice(), s) {
            return i;
        }
        i = i + 1;
    }
    0
}

impl Profile {
    /// An empty profile.
    pub fn new() -> (p: Self)
        ensures
            p.sample_type@.len() == 0 && p.sample@.len() == 0 && p.location@.len() == 0
                && p.function@.len() == 0,
            p.time_nanos == 0 && p.duration_nanos == 0 && p.period == 0,
            p.period_type is None,
            p.default_sample_type@.len() == 0,
    {
        Profile {
            sample_type: Vec::new(),
            sample: Vec::new(),
            location: Vec::new(),
            function: Vec::new(),
            time_nanos: 0,
            duration_nanos: 0,
            period_type: None,
            period: 0,
            default_sample_type: Vec::new(),
        }
    }

    /// The string table, in Go's traversal order.
    fn pre_encode(&self) -> (st: Vec<Vec<u8>>)
        ensures
            strs(st@) == string_table(*self),
    {
        let mut st: Vec<Vec<u8>> = Vec::new();
        st.push(Vec::new());
        let ghost st0: Seq<Seq<u8>> = seq![Seq::<u8>::empty()];
        assert(strs(st@) =~= st0);
        let mut i: usize = 0;
        assert(type_strings(self.sample_type@.subrange(0, 0)) =~= Seq::<Seq<u8>>::empty());
        while i < self.sample_type.len()
            invariant
                i <= self.sample_type@.len(),
                strs(st@) == intern_all(st0, type_strings(self.sample_type@.subrange(0, i as int))),
            decreases self.sample_type@.len() - i,
        {
            let t = &self.sample_type[i];
            let ghost before = type_strings(self.sample_type@.subrange(0, i as int));
            add_string(&mut st, t.ty.as_slice());
            add_string(&mut st, t.unit.as_slice());
            proof {
                lemma_intern_all_concat(st0, before, seq![t.ty@, t.unit@]);
                assert(self.sample_type@.subrange(0, i + 1).drop_last() =~= self.sample_type@.subrange(0, i as int));
                reveal_with_fuel(intern_all, 3);
                assert(seq![t.ty@, t.unit@].drop_last() =~= seq![t.ty@]);
                assert(seq![t.ty@].drop_last() =~= Seq::<Seq<u8>>::empty());
            }
            i = i + 1;
        }
        let ghost ts = type_strings(self.sample_type@);
        assert(self.sample_type@.subrange(0, self.sample_type@.len() as int) =~= self.sample_type@);
        let mut j: usize = 0;
        assert(ts + function_strings(self.function@.subrange(0, 0)) =~= ts);
        while j < self.function.len()
            invariant
                j <= self.function@.len(),
                ts == type_strings(self.sample_type@),
                strs(st@) == intern_all(st0, ts + function_strings(self.function@.subrange(0, j as int))),
            decreases self.function@.len() - j,
        {
            let f = &self.function[j];
            let ghost before = ts + function_strings(self.function@.subrange(0, j as int));
            add_string(&mut st, f.name.as_slice());
            add_string(&mut st, f.system_name.as_slice());
            add_string(&mut st, f.filename.as_slice());
            proof {
                let three = seq![f.name@, f.system_name@, f.filename@];
                lemma_intern_all_concat(st0, before, three);
                assert(self.function@.subrange(0, j + 1).drop_last() =~= self.function@.subrange(0, j as int));
                reveal_with_fuel(intern_all, 4);
                assert(three.drop_last() =~= seq![f.name@, f.system_name@]);
                assert(three.drop_last().drop_last() =~= seq![f.name@]);
                assert(three.drop_last().drop_last().drop_last() =~= Seq::<Seq<u8>>::empty());
                assert(ts + function_strings(self.function@.subrange(0, j + 1)) =~= before + three);
            }
            j = j + 1;
        }
        assert(self.function@.subrange(0, self.function@.len() as int) =~= self.function@);
        let ghost tf = ts + function_strings(self.function@);
        let ghost tail: Seq<Seq<u8>> = match &self.period_type {
            Some(pt) => seq![pt.ty@, pt.unit@],
            None => Seq::empty(),
        };
        match &self.period_type {
            Some(pt) => {
                add_string(&mut st, pt.ty.as_slice());
                add_string(&mut st, pt.unit.as_slice());
                proof {
                    lemma_intern_all_concat(st0, tf, tail);
                    reveal_with_fuel(intern_all, 3);
                    assert(tail.drop_last() =~= seq![pt.ty@]);
                    assert(tail.drop_last().drop_last() =~= Seq::<Seq<u8>>::empty());
                }
            },
            None => {
                assert(tf + tail =~= tf);
            },
        }
        add_string(&mut st, self.default_sample_type.as_slice());
        proof {
            let last = seq![self.default_sample_type@];
            lemma_intern_all_concat(st0, tf + tail, last);
            reveal_with_fuel(intern_all, 2);
            assert(last.drop_last() =~= Seq::<Seq<u8>>::empty());
            assert(string_order(*self) =~= tf + tail + last);
        }
        st
    }
}

/// A `ValueType` message.
fn value_type_bytes(st: &Vec<Vec<u8>>, t: &ValueType) -> (m: Vec<u8>)
    ensures
        m@ == value_type_msg(strs(st@), *t),
{
    let mut m: Vec<u8> = Vec::new();
    put_uint64_opt(&mut m, 1, string_index(st, t.ty.as_slice()) as u64);
    put_uint64_opt(&mut m, 2, string_index(st, t.unit.as_slice()) as u64);
    assert(m@ =~= value_type_msg(strs(st@), *t));
    m
}

/// A `Sample` message.
fn sample_bytes(s: &Sample) -> (m: Vec<u8>)
    ensures
        m@ == sample_msg(*s),
{
    let mut m: Vec<u8> = Vec::new();
    put_uint64s(&mut m, 1, s.location_id.as_slice());
    let ghost head = m@;
    let mut i: usize = 0;
    assert(m@ =~= head + enc_values(s.value@.subrange(0, 0)));
    while i < s.value.len()
        invariant
            i <= s.value@.len(),
            m@ == head + enc_values(s.value@.subrange(0, i as int)),
        decreases s.value@.len() - i,
    {
        put_int64(&mut m, 2, s.value[i]);
        i = i + 1;
        assert(s.value@.subrange(0, i as int).drop_last() =~= s.value@.subrange(0, i - 1));
        assert(m@ =~= head + enc_values(s.value@.subrange(0, i as int)));
    }
    assert(s.value@.subrange(0, s.value@.len() as int) =~= s.value@);
    m
}

/// A `Location` message.
fn location_bytes(l: &Location) -> (m: Vec<u8>)
    ensures
        m@ == location_msg(*l),
{
    let mut m: Vec<u8> = Vec::new();
    put_uint64_opt(&mut m, 1, l.id);
    put_uint64_opt(&mut m, 3, l.address);
    let ghost head = m@;
    let mut i: usize = 0;
    assert(m@ =~= head + enc_lines(l.line@.subrange(0, 0)));
    while i < l.line.len()
        invariant
            i <= l.line@.len(),
            m@ == head + enc_lines(l.line@.subrange(0, i as int)),
        decreases l.line@.len() - i,
    {
        let ln = &l.line[i];
        let mut lm: Vec<u8> = Vec::new();
        put_uint64_opt(&mut lm, 1, ln.function_id);
        put_int64_opt(&mut lm, 2, ln.line);
        assert(lm@ =~= line_msg(*ln));
        put_bytes(&mut m, 4, lm.as_slice());
        i = i + 1;
        assert(l.line@.subrange(0, i as int).drop_last() =~= l.line@.subrange(0, i - 1));
        assert(m@ =~= head + enc_lines(l.line@.subrange(0, i as int)));
    }
    assert(l.line@.subrange(0, l.line@.len() as int) =~= l.line@);
    assert(m@ =~= location_msg(*l));
    m
}

/// A `Function` message.
fn function_bytes(st: &Vec<Vec<u8>>, f: &Function) -> (m: Vec<u8>)
    ensures
        m@ == function_msg(strs(st@), *f),
{
    let mut m: Vec<u8> = Vec::new();
    put_uint64_opt(&mut m, 1, f.id);
    put_uint64_opt(&mut m, 2, string_index(st, f.name.as_slice()) as u64);
    put_uint64_opt(&mut m, 3, string_index(st, f.system_name.as_slice()) as u64);
    put_uint64_opt(&mut m, 4, string_index(st, f.filename.as_slice()) as u64);
    put_int64_opt(&mut m, 5, f.start_line);
    assert(m@ =~= function_msg(strs(st@), *f));
    m
}

impl Profile {
    /// The uncompressed protobuf bytes of the profile, as
    /// `profile_bytes` says.
    pub fn marshal(&self) -> (b: Vec<u8>)
        ensures
            b@ == profile_bytes(*self),
    {
        let st = self.pre_encode();
        let ghost stv = strs(st@);
        let mut b: Vec<u8> = Vec::new();
        let mut i: usize = 0;
        assert(b@ =~= enc_value_types(stv, self.sample_type@.subrange(0, 0)));
        while i < self.sample_type.len()
            invariant
                i <= self.sample_type@.len(),
                stv == strs(st@),
                b@ == enc_value_types(stv, self.sample_type@.subrange(0, i as int)),
            decreases self.sample_type@.len() - i,
        {
            let m = value_type_bytes(&st, &self.sample_type[i]);
            put_bytes(&mut b, 1, m.as_slice());
            i = i + 1;
            assert(self.sample_type@.subrange(0, i as int).drop_last() =~= self.sample_type@.subrange(0, i - 1));
        }
        assert(self.sample_type@.subrange(0, self.sample_type@.len() as int) =~= self.sample_type@);
        let ghost p1 = b@;
        let mut i: usize = 0;
        assert(b@ =~= p1 + enc_samples(self.sample@.subrange(0, 0)));
        while i < self.sample.len()
            invariant
                i <= self.sample@.len(),
                b@ == p1 + enc_samples(self.sample@.subrange(0, i as int)),
            decreases self.sample@.len() - i,
        {
            let m = sample_bytes(&self.sample[i]);
            put_bytes(&mut b, 2, m.as_slice());
            i = i + 1;
            assert(self.sample@.subrange(0, i as int).drop_last() =~= self.sample@.subrange(0, i - 1));
            assert(b@ =~= p1 + enc_samples(self.sample@.subrange(0, i as int)));
        }
        assert(self.sample@.subrange(0, self.sample@.len() as int) =~= self.sample@);
        let ghost p2 = b@;
        let mut i: usize = 0;
        assert(b@ =~= p2 + enc_locations(self.location@.subrange(0, 0)));
        while i < self.location.len()
            invariant
                i <= self.location@.len(),
                b@ == p2 + enc_locations(self.location@.subrange(0, i as int)),
            decreases self.location@.len() - i,
        {
            let m = location_bytes(&self.location[i]);
            put_bytes(&mut b, 4, m.as_slice());
            i = i + 1;
            assert(self.location@.subrange(0, i as int).drop_last() =~= self.location@.subrange(0, i - 1));
            assert(b@ =~= p2 + enc_locations(self.location@.subrange(0, i as int)));
        }
        assert(self.location@.subrange(0, self.location@.len() as int) =~= self.location@);
        let ghost p3 = b@;
        let mut i: usize = 0;
        assert(b@ =~= p3 + enc_functions(stv, self.function@.subrange(0, 0)));
        while i < self.function.len()
            invariant
                i <= self.function@.len(),
                stv == strs(st@),
                b@ == p3 + enc_functions(stv, self.function@.subrange(0, i as int)),
            decreases self.function@.len() - i,
        {
            let m = function_bytes(&st, &self.function[i]);
            put_bytes(&mut b, 5, m.as_slice());
            i = i + 1;
            assert(self.function@.subrange(0, i as int).drop_last() =~= self.function@.subrange(0, i - 1));
            assert(b@ =~= p3 + enc_functions(stv, self.function@.subrange(0, i as int)));
        }
        assert(self.function@.subrange(0, self.function@.len() as int) =~= self.function@);
        let ghost p4 = b@;
        let mut i: usize = 0;
        assert(b@ =~= p4 + enc_strings(stv.subrange(0, 0)));
        while i < st.len()
            invariant
                i <= st@.len(),
                stv == strs(st@),
                b@ == p4 + enc_strings(stv.subrange(0, i as int)),
            decreases st@.len() - i,
        {
            put_bytes(&mut b, 6, st[i].as_slice());
            i = i + 1;
            assert(stv.subrange(0, i as int).drop_last() =~= stv.subrange(0, i - 1));
            assert(b@ =~= p4 + enc_strings(stv.subrange(0, i as int)));
        }
        assert(stv.subrange(0, stv.len() as int) =~= stv);
        let ghost p5 = b@;
        put_int64_opt(&mut b, 9, self.time_nanos);
        put_int64_opt(&mut b, 10, self.duration_nanos);
        let ghost p6 = b@;
        match &self.period_type {
            Some(pt) => {
                let m = value_type_bytes(&st, pt);
                put_bytes(&mut b, 11, m.as_slice());
            },
            None => {},
        }
        let ghost p7 = b@;
        put_int64_opt(&mut b, 12, self.period);
        put_uint64_opt(&mut b, 14, string_index(&st, self.default_sample_type.as_slice()) as u64);
        assert(b@ =~= profile_bytes(*self));
        b
    }
}

} // verus!
