//! The wire form, lower layer: numbered fields, each a number or a string of
//! octets, written one after the other.
//!
//! A number is written in base 128, least significant group first, every
//! octet but the last with its high bit set. A field is written as its key
//! (the field number times 8, plus 0 for a number or 2 for octets), then the
//! number, or the count of octets and the octets. This is the layout that
//! Protocol Buffers use for `uint64` and `bytes` fields.

use vstd::prelude::*;

verus! {

/// 128 to the power `i`.
pub open spec fn pow128(i: nat) -> nat
    decreases i,
{
    if i == 0 {
        1
    } else {
        128 * pow128((i - 1) as nat)
    }
}

/// How `v` is written.
#[verifier::opaque]
pub open spec fn varint(v: nat) -> Seq<u8>
    decreases v,
{
    if v < 128 {
        seq![v as u8]
    } else {
        seq![(v % 128 + 128) as u8] + varint(v / 128)
    }
}

/// The number that the first `n` octets of `b` spell, high bits ignored.
#[verifier::opaque]
pub open spec fn groups_value(b: Seq<u8>, n: nat) -> nat
    decreases n,
{
    if n == 0 {
        0
    } else {
        groups_value(b, (n - 1) as nat) + (b[n - 1] % 128) as nat * pow128((n - 1) as nat)
    }
}

/// The place of the octet that ends the number at the head of `b`: the
/// first one from `from` on without the high bit, among the first ten.
#[verifier::opaque]
pub open spec fn last_group(b: Seq<u8>, from: nat) -> Option<nat>
    decreases 10 - from,
{
    if from >= 10 || from >= b.len() {
        None
    } else if b[from as int] < 128 {
        Some(from)
    } else {
        last_group(b, from + 1)
    }
}

/// Reads the number at the head of `b`: its value, and how many octets it
/// takes. There is none where `b` ends early, where the number runs over
/// ten octets, or where it does not fit 64 bits.
#[verifier::opaque]
pub open spec fn parse_varint(b: Seq<u8>) -> Option<(u64, int)> {
    match last_group(b, 0) {
        Some(last) => if groups_value(b, last + 1) <= u64::MAX {
            Some((groups_value(b, last + 1) as u64, (last + 1) as int))
        } else {
            None
        },
        None => None,
    }
}

/// What a field holds.
#[derive(Debug, PartialEq, Eq)]
pub enum Value {
    Varint(u64),
    Bytes(Vec<u8>),
}

/// What a field's value is.
pub enum ValueView {
    Varint(u64),
    Bytes(Seq<u8>),
}

impl View for Value {
    type V = ValueView;

    open spec fn view(&self) -> ValueView {
        match self {
            Value::Varint(v) => ValueView::Varint(*v),
            Value::Bytes(b) => ValueView::Bytes(b@),
        }
    }
}

/// One numbered field.
#[derive(Debug, PartialEq, Eq)]
pub struct Field {
    pub number: u32,
    pub value: Value,
}

/// What a field is.
pub struct FieldView {
    pub number: u32,
    pub value: ValueView,
}

impl View for Field {
    type V = FieldView;

    open spec fn view(&self) -> FieldView {
        FieldView { number: self.number, value: self.value@ }
    }
}

/// The views of a list of fields, in order.
pub open spec fn field_views(fields: Seq<Field>) -> Seq<FieldView> {
    fields.map_values(|f: Field| f@)
}

impl FieldView {
    /// The key written before the value.
    pub open spec fn key(self) -> nat {
        match self.value {
            ValueView::Varint(_) => (self.number * 8) as nat,
            ValueView::Bytes(_) => (self.number * 8 + 2) as nat,
        }
    }

    /// A field can be written if the count of its octets fits 64 bits.
    pub open spec fn fits(self) -> bool {
        match self.value {
            ValueView::Varint(_) => true,
            ValueView::Bytes(b) => b.len() <= u64::MAX,
        }
    }

    /// How the field is written.
    pub open spec fn bytes(self) -> Seq<u8> {
        match self.value {
            ValueView::Varint(v) => varint(self.key()) + varint(v as nat),
            ValueView::Bytes(b) => varint(self.key()) + varint(b.len()) + b,
        }
    }
}

/// How a list of fields is written: one after the other.
#[verifier::opaque]
pub open spec fn fields_bytes(fields: Seq<FieldView>) -> Seq<u8>
    decreases fields.len(),
{
    if fields.len() == 0 {
        Seq::empty()
    } else {
        fields[0].bytes() + fields_bytes(fields.skip(1))
    }
}

/// Reads the field at the head of `b`: the field, and how many octets it
/// takes.
#[verifier::opaque]
pub open spec fn parse_field(b: Seq<u8>) -> Option<(FieldView, int)> {
    match parse_varint(b) {
        Some((key, n)) => if key / 8 > u32::MAX {
            None
        } else if key % 8 == 0 {
            match parse_varint(b.skip(n)) {
                Some((v, m)) => Some(
                    (FieldView { number: (key / 8) as u32, value: ValueView::Varint(v) }, n + m),
                ),
                None => None,
            }
        } else if key % 8 == 2 {
            match parse_varint(b.skip(n)) {
                Some((len, m)) => if n + m + len <= b.len() {
                    Some(
                        (
                            FieldView {
                                number: (key / 8) as u32,
                                value: ValueView::Bytes(b.subrange(n + m, n + m + len)),
                            },
                            n + m + len,
                        ),
                    )
                } else {
                    None
                },
                None => None,
            }
        } else {
            None
        },
        None => None,
    }
}

/// Reads `b` as a list of fields. There is none unless `b` is fields from
/// its first octet to its last.
#[verifier::opaque]
pub open spec fn parse_fields(b: Seq<u8>) -> Option<Seq<FieldView>>
    decreases b.len(),
{
    if b.len() == 0 {
        Some(Seq::empty())
    } else {
        match parse_field(b) {
            Some((f, n)) => if 0 < n <= b.len() {
                match parse_fields(b.skip(n)) {
                    Some(rest) => Some(seq![f] + rest),
                    None => None,
                }
            } else {
                None
            },
            None => None,
        }
    }
}

/// The first eleven powers of 128.
pub proof fn lemma_pow128_values()
    ensures
        pow128(0) == 1,
        pow128(1) == 0x80,
        pow128(2) == 0x4000,
        pow128(3) == 0x20_0000,
        pow128(4) == 0x1000_0000,
        pow128(5) == 0x8_0000_0000,
        pow128(6) == 0x400_0000_0000,
        pow128(7) == 0x2_0000_0000_0000,
        pow128(8) == 0x100_0000_0000_0000,
        pow128(9) == 0x8000_0000_0000_0000,
        pow128(10) == 0x40_0000_0000_0000_0000,
{
    reveal_with_fuel(pow128, 11);
}

/// The value of the groups does not depend on what follows them.
pub proof fn lemma_groups_prefix(b: Seq<u8>, rest: Seq<u8>, n: nat)
    requires
        n <= b.len(),
    ensures
        groups_value(b + rest, n) == groups_value(b, n),
    decreases n,
{
    reveal(groups_value);
    if n > 0 {
        lemma_groups_prefix(b, rest, (n - 1) as nat);
        assert((b + rest)[n - 1] == b[n - 1]);
    }
}

/// The value of the groups with one more group in front.
pub proof fn lemma_groups_shift(x: u8, t: Seq<u8>, n: nat)
    requires
        n <= t.len(),
    ensures
        groups_value(seq![x] + t, n + 1) == (x % 128) as nat + 128 * groups_value(t, n),
    decreases n,
{
    reveal_with_fuel(groups_value, 2);
    let b = seq![x] + t;
    if n == 0 {
        assert(groups_value(t, 0) == 0);
        assert(groups_value(b, 0) == 0);
        assert(b[0] == x);
        assert(pow128(0) == 1);
        assert(groups_value(b, 1) == groups_value(b, 0) + (b[0] % 128) as nat * pow128(0));
    } else {
        lemma_groups_shift(x, t, (n - 1) as nat);
        assert(b[n as int] == t[n - 1]);
        let g = (t[n - 1] % 128) as nat;
        let p = pow128((n - 1) as nat);
        let a = groups_value(t, (n - 1) as nat);
        assert(pow128(n) == 128 * p);
        assert(groups_value(t, n) == a + g * p);
        assert(groups_value(b, n) == (x % 128) as nat + 128 * a);
        assert(groups_value(b, n + 1) == groups_value(b, n) + g * pow128(n));
        assert(g * (128 * p) == 128 * (g * p)) by (nonlinear_arith);
        assert(128 * (a + g * p) == 128 * a + 128 * (g * p)) by (nonlinear_arith);
    }
}

/// The place where the number at the head of `b` ends, where all octets
/// before `k` have the high bit and the one at `k` has not.
pub proof fn lemma_last_group(b: Seq<u8>, from: nat, k: nat)
    requires
        from <= k < 10,
        k < b.len(),
        forall|i: int| from <= i < k ==> b[i] >= 128,
        b[k as int] < 128,
    ensures
        last_group(b, from) == Some(k),
    decreases k - from,
{
    reveal(last_group);
    if from < k {
        lemma_last_group(b, from + 1, k);
    }
}

/// The shape of a written number: every octet but the last has the high
/// bit, the groups spell the number, and the count of octets goes with its
/// size.
pub proof fn lemma_varint_shape(v: nat)
    ensures
        varint(v).len() >= 1,
        forall|i: int| 0 <= i < varint(v).len() - 1 ==> varint(v)[i] >= 128,
        varint(v)[varint(v).len() - 1] < 128,
        groups_value(varint(v), varint(v).len()) == v,
        varint(v).len() > 1 ==> v >= pow128((varint(v).len() - 1) as nat),
    decreases v,
{
    reveal(varint);
    reveal_with_fuel(groups_value, 2);
    let s = varint(v);
    if v < 128 {
        assert(s =~= seq![v as u8]);
        assert(pow128(0) == 1);
        assert(groups_value(s, 0) == 0);
        assert(groups_value(s, 1) == groups_value(s, 0) + (s[0] % 128) as nat * pow128(0));
    } else {
        let x = (v % 128 + 128) as u8;
        let t = varint(v / 128);
        lemma_varint_shape(v / 128);
        assert(s =~= seq![x] + t);
        assert forall|i: int| 0 <= i < s.len() - 1 implies s[i] >= 128 by {
            if i > 0 {
                assert(s[i] == t[i - 1]);
            }
        }
        assert(s[s.len() - 1] == t[t.len() - 1]);
        lemma_groups_shift(x, t, t.len());
        assert(pow128(1) == 128) by {
            reveal_with_fuel(pow128, 2);
        }
        if t.len() > 1 {
            assert(pow128((s.len() - 1) as nat) == 128 * pow128((t.len() - 1) as nat));
        }
    }
}

/// A number of 64 bits takes at most ten octets.
pub proof fn lemma_varint_len(v: nat)
    requires
        v <= u64::MAX,
    ensures
        1 <= varint(v).len() <= 10,
    decreases v,
{
    lemma_varint_shape(v);
    lemma_pow128_values();
    if varint(v).len() > 10 {
        lemma_pow128_grows(10, (varint(v).len() - 1) as nat);
    }
}

/// The powers of 128 do not fall.
pub proof fn lemma_pow128_grows(i: nat, j: nat)
    requires
        i <= j,
    ensures
        pow128(i) <= pow128(j),
        pow128(i) >= 1,
    decreases j,
{
    if i < j {
        lemma_pow128_grows(i, (j - 1) as nat);
    } else if i > 0 {
        lemma_pow128_grows((i - 1) as nat, (i - 1) as nat);
    }
}

/// Reading gives back a written number, whatever follows it.
pub proof fn lemma_varint_round_trip(v: u64, rest: Seq<u8>)
    ensures
        parse_varint(varint(v as nat) + rest) == Some((v, varint(v as nat).len() as int)),
        1 <= varint(v as nat).len() <= 10,
{
    reveal(parse_varint);
    let s = varint(v as nat);
    let b = s + rest;
    lemma_varint_shape(v as nat);
    lemma_varint_len(v as nat);
    let last = (s.len() - 1) as nat;
    assert forall|i: int| 0 <= i < last implies b[i] >= 128 by {
        assert(b[i] == s[i]);
    }
    assert(b[last as int] == s[last as int]);
    lemma_last_group(b, 0, last);
    lemma_groups_prefix(s, rest, s.len());
}

/// Appends `v` to `out`, as a number.
pub fn write_varint(out: &mut Vec<u8>, v: u64)
    ensures
        final(out)@ == old(out)@ + varint(v as nat),
{
    let mut left = v;
    while left >= 128
        invariant
            out@ + varint(left as nat) == old(out)@ + varint(v as nat),
        decreases left,
    {
        proof {
            reveal(varint);
        }
        let ghost before = out@;
        out.push((left % 128 + 128) as u8);
        assert(before + varint(left as nat) =~= out@ + varint((left / 128) as nat));
        left = left / 128;
    }
    let ghost before = out@;
    out.push(left as u8);
    proof {
        reveal(varint);
    }
    assert(out@ =~= before + varint(left as nat));
}

/// Reads the number that starts at `pos`. Returns it with the place after
/// its last octet.
pub fn read_varint(b: &[u8], pos: usize) -> (r: Option<(u64, usize)>)
    requires
        pos <= b.len(),
    ensures
        match r {
            Some((v, next)) => pos < next <= b.len() && parse_varint(b@.skip(pos as int)) == Some(
                (v, next - pos),
            ),
            None => parse_varint(b@.skip(pos as int)) is None,
        },
{
    let ghost tail = b@.skip(pos as int);
    let mut acc: u64 = 0;
    let mut scale: u64 = 1;
    let mut i: usize = 0;
    proof {
        lemma_pow128_values();
        reveal(groups_value);
    }
    while i < 10 && i < b.len() - pos
        invariant
            i <= 10,
            pos + i <= b.len(),
            tail == b@.skip(pos as int),
            forall|j: int| 0 <= j < i ==> tail[j] >= 128,
            acc == groups_value(tail, i as nat),
            acc < pow128(i as nat),
            i < 10 ==> scale == pow128(i as nat),
            last_group(tail, 0) == last_group(tail, i as nat),
        decreases 10 - i,
    {
        let byte = b[pos + i];
        assert(tail[i as int] == byte);
        let group = byte % 128;
        proof {
            reveal(groups_value);
            reveal(last_group);
            reveal(parse_varint);
            lemma_pow128_values();
            lemma_pow128_grows(i as nat, 9);
            assert(groups_value(tail, (i + 1) as nat) == acc + group as nat * pow128(i as nat));
            assert(group as nat * pow128(i as nat) <= 127 * pow128(i as nat)) by (nonlinear_arith)
                requires
                    group <= 127,
                    pow128(i as nat) >= 0,
            ;
            assert(pow128((i + 1) as nat) == 128 * pow128(i as nat));
        }
        if i == 9 && group > 1 {
            proof {
                assert(group as nat * pow128(9) >= 2 * pow128(9)) by (nonlinear_arith)
                    requires
                        group >= 2,
                        pow128(9) >= 0,
                ;
                if byte < 128 {
                    lemma_last_group(tail, 9, 9);
                    assert(last_group(tail, 0) == Some(9nat));
                    assert(groups_value(tail, 10) > u64::MAX);
                } else {
                    assert(last_group(tail, 10) is None);
                    assert(last_group(tail, 9) == last_group(tail, 10));
                }
                assert(parse_varint(tail) is None);
            }
            return None;
        }
        assert(group as nat * scale as nat <= 0x8000_0000_0000_0000) by (nonlinear_arith)
            requires
                group <= 127,
                i < 9 ==> scale <= 0x100_0000_0000_0000,
                i == 9 ==> group <= 1 && scale == 0x8000_0000_0000_0000,
                i <= 9,
        ;
        acc = acc + (group as u64) * scale;
        if byte < 128 {
            proof {
                lemma_last_group(tail, i as nat, i as nat);
            }
            return Some((acc, pos + i + 1));
        }
        i += 1;
        if i < 10 {
            scale = scale * 128;
        }
    }
    proof {
        reveal(last_group);
        reveal(parse_varint);
    }
    None
}

/// Reading gives back a written field, whatever follows it.
pub proof fn lemma_field_round_trip(f: FieldView, rest: Seq<u8>)
    requires
        f.fits(),
    ensures
        parse_field(f.bytes() + rest) == Some((f, f.bytes().len() as int)),
        f.bytes().len() > 0,
{
    reveal(parse_field);
    let key = f.key() as u64;
    let all = f.bytes() + rest;
    let n = varint(f.key()).len() as int;
    assert(key / 8 == f.number);
    match f.value {
        ValueView::Varint(v) => {
            let after_key = varint(v as nat) + rest;
            assert(all =~= varint(f.key()) + after_key);
            lemma_varint_round_trip(key, after_key);
            assert(all.skip(n) =~= after_key);
            lemma_varint_round_trip(v, rest);
            assert(key % 8 == 0);
        },
        ValueView::Bytes(b) => {
            let after_len = b + rest;
            let after_key = varint(b.len()) + after_len;
            assert(all =~= varint(f.key()) + after_key);
            lemma_varint_round_trip(key, after_key);
            assert(all.skip(n) =~= after_key);
            lemma_varint_round_trip(b.len() as u64, after_len);
            let m = varint(b.len()).len() as int;
            assert(all.subrange(n + m, n + m + b.len()) =~= b);
            assert(key % 8 == 2);
        },
    }
}

/// Every field of `fields` can be written.
pub open spec fn all_fit(fields: Seq<FieldView>) -> bool {
    forall|i: int| 0 <= i < fields.len() ==> (#[trigger] fields[i]).fits()
}

/// Reading gives back a written list of fields.
pub proof fn lemma_fields_round_trip(fields: Seq<FieldView>)
    requires
        all_fit(fields),
    ensures
        parse_fields(fields_bytes(fields)) == Some(fields),
    decreases fields.len(),
{
    reveal(parse_fields);
    reveal(fields_bytes);
    if fields.len() > 0 {
        let rest = fields_bytes(fields.skip(1));
        lemma_field_round_trip(fields[0], rest);
        assert(all_fit(fields.skip(1))) by {
            assert forall|i: int| 0 <= i < fields.skip(1).len() implies (#[trigger] fields.skip(
                1,
            )[i]).fits() by {
                assert(fields.skip(1)[i] == fields[i + 1]);
            }
        }
        lemma_fields_round_trip(fields.skip(1));
        let all = fields_bytes(fields);
        assert(all.skip(fields[0].bytes().len() as int) =~= rest);
        assert(seq![fields[0]] + fields.skip(1) =~= fields);
    }
}

/// Writing one more field at the end.
pub proof fn lemma_fields_bytes_push(fields: Seq<FieldView>, f: FieldView)
    ensures
        fields_bytes(fields.push(f)) == fields_bytes(fields) + f.bytes(),
    decreases fields.len(),
{
    reveal_with_fuel(fields_bytes, 2);
    let grown = fields.push(f);
    if fields.len() == 0 {
        assert(grown.skip(1) =~= Seq::<FieldView>::empty());
        assert(fields_bytes(grown.skip(1)) =~= Seq::<u8>::empty());
        assert(fields_bytes(grown) =~= f.bytes());
        assert(fields_bytes(fields) + f.bytes() =~= f.bytes());
    } else {
        lemma_fields_bytes_push(fields.skip(1), f);
        assert(grown.skip(1) =~= fields.skip(1).push(f));
        assert(grown[0] == fields[0]);
        assert(fields_bytes(grown) =~= fields_bytes(fields) + f.bytes());
    }
}

/// Appends the octets of `b` to `out`.
pub fn append_bytes(out: &mut Vec<u8>, b: &[u8])
    ensures
        final(out)@ == old(out)@ + b@,
{
    let mut i: usize = 0;
    while i < b.len()
        invariant
            i <= b.len(),
            out@ == old(out)@ + b@.take(i as int),
        decreases b.len() - i,
    {
        out.push(b[i]);
        assert(out@ =~= old(out)@ + b@.take(i + 1));
        i += 1;
    }
    assert(b@.take(i as int) =~= b@);
}

/// The octets of `b` from `from` up to `to`.
pub fn copy_range(b: &[u8], from: usize, to: usize) -> (out: Vec<u8>)
    requires
        from <= to <= b.len(),
    ensures
        out@ == b@.subrange(from as int, to as int),
{
    let mut out: Vec<u8> = Vec::new();
    let mut i: usize = from;
    while i < to
        invariant
            from <= i <= to <= b.len(),
            out@ == b@.subrange(from as int, i as int),
        decreases to - i,
    {
        out.push(b[i]);
        assert(out@ =~= b@.subrange(from as int, i + 1));
        i += 1;
    }
    out
}

/// Appends `f` to `out`.
pub fn write_field(out: &mut Vec<u8>, f: &Field)
    ensures
        final(out)@ == old(out)@ + f@.bytes(),
        f@.fits(),
{
    match &f.value {
        Value::Varint(v) => {
            write_varint(out, f.number as u64 * 8);
            write_varint(out, *v);
            assert(out@ =~= old(out)@ + f@.bytes());
        },
        Value::Bytes(b) => {
            write_varint(out, f.number as u64 * 8 + 2);
            write_varint(out, b.len() as u64);
            append_bytes(out, b.as_slice());
            assert(out@ =~= old(out)@ + f@.bytes());
        },
    }
}

/// Writes `fields`, one after the other. Reading the result gives them
/// back.
pub fn encode_fields(fields: &Vec<Field>) -> (out: Vec<u8>)
    ensures
        out@ == fields_bytes(field_views(fields@)),
        all_fit(field_views(fields@)),
        parse_fields(out@) == Some(field_views(fields@)),
{
    let ghost views = field_views(fields@);
    let mut out: Vec<u8> = Vec::new();
    let mut i: usize = 0;
    proof {
        reveal(fields_bytes);
    }
    assert(fields_bytes(views.take(0)) =~= Seq::<u8>::empty());
    while i < fields.len()
        invariant
            i <= fields.len(),
            views == field_views(fields@),
            out@ == fields_bytes(views.take(i as int)),
            all_fit(views.take(i as int)),
        decreases fields.len() - i,
    {
        write_field(&mut out, &fields[i]);
        proof {
            lemma_fields_bytes_push(views.take(i as int), views[i as int]);
            assert(views.take(i + 1) =~= views.take(i as int).push(views[i as int]));
            assert forall|j: int| 0 <= j < i + 1 implies (#[trigger] views.take(i + 1)[j]).fits() by {
                if j < i {
                    assert(views.take(i as int)[j].fits());
                }
            }
        }
        i += 1;
    }
    proof {
        assert(views.take(i as int) =~= views);
        lemma_fields_round_trip(views);
    }
    out
}

/// Reads the field that starts at `pos`. Returns it with the place after
/// its last octet.
pub fn read_field(b: &[u8], pos: usize) -> (r: Option<(Field, usize)>)
    requires
        pos <= b.len(),
    ensures
        match r {
            Some((f, next)) => pos < next <= b.len() && parse_field(b@.skip(pos as int)) == Some(
                (f@, next - pos),
            ),
            None => parse_field(b@.skip(pos as int)) is None,
        },
{
    let ghost tail = b@.skip(pos as int);
    proof {
        reveal(parse_field);
    }
    let (key, at) = match read_varint(b, pos) {
        Some(r) => r,
        None => {
            return None;
        },
    };
    if key / 8 > u32::MAX as u64 {
        return None;
    }
    let number = (key / 8) as u32;
    assert(tail.skip(at - pos) =~= b@.skip(at as int));
    if key % 8 == 0 {
        match read_varint(b, at) {
            Some((v, next)) => Some((Field { number, value: Value::Varint(v) }, next)),
            None => None,
        }
    } else if key % 8 == 2 {
        match read_varint(b, at) {
            Some((len, from)) => {
                if len > (b.len() - from) as u64 {
                    return None;
                }
                let to = from + len as usize;
                let body = copy_range(b, from, to);
                assert(body@ =~= tail.subrange(from - pos, to - pos));
                Some((Field { number, value: Value::Bytes(body) }, to))
            },
            None => None,
        }
    } else {
        None
    }
}

/// Reads `b` as a list of fields.
pub fn decode_fields(b: &[u8]) -> (r: Option<Vec<Field>>)
    ensures
        match r {
            Some(fields) => parse_fields(b@) == Some(field_views(fields@)),
            None => parse_fields(b@) is None,
        },
{
    let mut fields: Vec<Field> = Vec::new();
    let mut pos: usize = 0;
    assert(b@.skip(0) =~= b@);
    assert(field_views(fields@) =~= Seq::<FieldView>::empty());
    while pos < b.len()
        invariant
            pos <= b.len(),
            match parse_fields(b@.skip(pos as int)) {
                Some(rest) => parse_fields(b@) == Some(field_views(fields@) + rest),
                None => parse_fields(b@) is None,
            },
        decreases b.len() - pos,
    {
        let ghost before = field_views(fields@);
        let ghost tail = b@.skip(pos as int);
        proof {
            reveal(parse_fields);
        }
        match read_field(b, pos) {
            Some((f, next)) => {
                proof {
                    assert(tail.skip(next - pos) =~= b@.skip(next as int));
                    match parse_fields(b@.skip(next as int)) {
                        Some(rest) => {
                            assert(parse_fields(tail) == Some(seq![f@] + rest));
                            assert(before + (seq![f@] + rest) =~= before.push(f@) + rest);
                        },
                        None => {},
                    }
                }
                fields.push(f);
                assert(field_views(fields@) =~= before.push(f@));
                pos = next;
            },
            None => {
                return None;
            },
        }
    }
    proof {
        reveal(parse_fields);
        assert(parse_fields(b@.skip(pos as int)) == Some(Seq::<FieldView>::empty()));
        assert(field_views(fields@) + Seq::<FieldView>::empty() =~= field_views(fields@));
    }
    Some(fields)
}

} // verus!
