//! The bencode value codec: a grammar over bytes, a canonical encoder and a
//! decoder that follows the grammar exactly.
use vstd::prelude::*;
use vstd::string::StringSliceAdditionalSpecFns;
use vstd::utf8::{decode_utf8, valid_utf8};

verus! {

/// ASCII codes of the markers of the format.
pub const INT_START: u8 = 105;  // 'i'
pub const LIST_START: u8 = 108;  // 'l'
pub const DICT_START: u8 = 100;  // 'd'
pub const END: u8 = 101;  // 'e'
pub const COLON: u8 = 58;  // ':'
pub const MINUS: u8 = 45;  // '-'
pub const ZERO: u8 = 48;  // '0'

/// The mathematical model of a bencode value.
///
/// An integer is kept as its sign and its decimal digits, so that its
/// magnitude is unbounded; `int_value` gives the number it stands for.
pub enum SValue {
    Int { negative: bool, digits: Seq<u8> },
    Bytes(Seq<u8>),
    List(Seq<SValue>),
    Dict(Seq<(Seq<u8>, SValue)>),
}

/// An integer of any size, kept as its sign and its canonical decimal digits.
#[derive(Debug, PartialEq, Eq)]
pub struct Integer {
    negative: bool,
    digits: Vec<u8>,
}

impl Integer {
    #[verifier::type_invariant]
    spec fn inv(&self) -> bool {
        canonical_int(self.negative, self.digits@)
    }

    pub closed spec fn spec_negative(&self) -> bool {
        self.negative
    }

    pub closed spec fn spec_digits(&self) -> Seq<u8> {
        self.digits@
    }

    /// Whether the integer is below zero.
    pub fn is_negative(&self) -> (r: bool)
        ensures
            r == self.spec_negative(),
    {
        self.negative
    }

    /// The decimal digits of the magnitude.
    pub fn digits(&self) -> (r: &[u8])
        ensures
            r@ == self.spec_digits(),
    {
        self.digits.as_slice()
    }

    /// The digits are canonical.
    pub fn lemma_canonical(&self)
        ensures
            canonical_int(self.spec_negative(), self.spec_digits()),
    {
        proof {
            use_type_invariant(self);
        }
    }
}

/// A decoded bencode value. A dictionary's entries may stand in any order;
/// what it holds is its entries put in one by one with `dict_insert`, so its
/// keys are ascending and unique and of two equal keys the later one wins.
#[derive(Debug, PartialEq, Eq)]
pub enum Value {
    Integer(Integer),
    Bytes(Vec<u8>),
    List(Vec<Value>),
    Dict(Vec<(Vec<u8>, Value)>),
}

impl Value {
    pub open spec fn view(&self) -> SValue
        decreases self, 1int,
    {
        match self {
            Value::Integer(n) => SValue::Int { negative: n.spec_negative(), digits: n.spec_digits() },
            Value::Bytes(b) => SValue::Bytes(b@),
            Value::List(items) => SValue::List(
                Seq::new(items@.len(), |i: int| if 0 <= i < items@.len() { items@[i].view() } else { SValue::Bytes(Seq::empty()) }),
            ),
            Value::Dict(_) => SValue::Dict(insert_all(self.dict_entries())),
        }
    }

    /// The models of a dictionary's entries in the order they stand.
    pub open spec fn dict_entries(&self) -> Seq<(Seq<u8>, SValue)>
        decreases self, 0int,
    {
        match self {
            Value::Dict(entries) => Seq::new(entries@.len(), |i: int| if 0 <= i < entries@.len() { (entries@[i].0@, entries@[i].1.view()) } else { (Seq::empty(), SValue::Bytes(Seq::empty())) }),
            _ => Seq::empty(),
        }
    }
}


pub open spec fn is_digit(c: u8) -> bool {
    ZERO <= c <= ZERO + 9
}

/// The digits of an integer are canonical: at least one, no leading zero
/// but for the single digit 0, and no negative zero.
pub open spec fn canonical_int(negative: bool, digits: Seq<u8>) -> bool {
    &&& digits.len() > 0
    &&& forall|i: int| 0 <= i < digits.len() ==> is_digit(#[trigger] digits[i])
    &&& (digits[0] == ZERO ==> digits.len() == 1 && !negative)
}

/// The number that a run of decimal digits stands for.
pub open spec fn digits_value(d: Seq<u8>) -> nat
    decreases d.len(),
{
    if d.len() == 0 {
        0
    } else {
        digits_value(d.drop_last()) * 10 + (d.last() - ZERO) as nat
    }
}

/// The integer that a model integer stands for.
pub open spec fn int_value(negative: bool, digits: Seq<u8>) -> int {
    if negative {
        -(digits_value(digits) as int)
    } else {
        digits_value(digits) as int
    }
}

/// The shortest decimal form of a natural number.
pub open spec fn decimal(n: nat) -> Seq<u8>
    decreases n,
{
    if n < 10 {
        seq![(n + ZERO) as u8]
    } else {
        decimal(n / 10).push((n % 10 + ZERO) as u8)
    }
}

/// Lexicographic order on raw bytes: `a` comes strictly before `b`.
pub open spec fn bytes_lt(a: Seq<u8>, b: Seq<u8>) -> bool
    decreases a.len(),
{
    if b.len() == 0 {
        false
    } else if a.len() == 0 {
        true
    } else if a[0] != b[0] {
        a[0] < b[0]
    } else {
        bytes_lt(a.drop_first(), b.drop_first())
    }
}

pub open spec fn keys_ascending(entries: Seq<(Seq<u8>, SValue)>) -> bool {
    forall|i: int| 0 <= i < entries.len() - 1 ==> bytes_lt(#[trigger] entries[i].0, entries[i + 1].0)
}

/// A well-formed value: canonical integers, and dictionaries whose keys
/// stand in strictly ascending byte order (so they are also unique).
pub open spec fn well_formed(v: SValue) -> bool
    decreases v,
{
    match v {
        SValue::Int { negative, digits } => canonical_int(negative, digits),
        SValue::Bytes(_) => true,
        SValue::List(items) => forall|i: int| 0 <= i < items.len() ==> well_formed(#[trigger] items[i]),
        SValue::Dict(entries) => {
            &&& forall|i: int| 0 <= i < entries.len() ==> well_formed(#[trigger] entries[i].1)
            &&& keys_ascending(entries)
        },
    }
}

/// The wire form of a byte string: its length in decimal, a colon, the bytes.
pub open spec fn encode_bytes(b: Seq<u8>) -> Seq<u8> {
    decimal(b.len()) + seq![COLON] + b
}

/// The wire form of a value.
pub open spec fn encode_value(v: SValue) -> Seq<u8>
    decreases v,
{
    match v {
        SValue::Int { negative, digits } => seq![INT_START] + (if negative {
            seq![MINUS]
        } else {
            Seq::empty()
        }) + digits + seq![END],
        SValue::Bytes(b) => encode_bytes(b),
        SValue::List(items) => seq![LIST_START] + encode_items(items) + seq![END],
        SValue::Dict(entries) => seq![DICT_START] + encode_entries(entries) + seq![END],
    }
}

pub open spec fn encode_items(items: Seq<SValue>) -> Seq<u8>
    decreases items,
{
    if items.len() == 0 {
        Seq::empty()
    } else {
        encode_items(items.drop_last()) + encode_value(items.last())
    }
}

pub open spec fn encode_entries(entries: Seq<(Seq<u8>, SValue)>) -> Seq<u8>
    decreases entries,
{
    if entries.len() == 0 {
        Seq::empty()
    } else {
        encode_entries(entries.drop_last()) + encode_bytes(entries.last().0)
            + encode_value(entries.last().1)
    }
}

/// The number of decimal digits at the front of `s`.
pub open spec fn digit_run(s: Seq<u8>) -> nat
    decreases s.len(),
{
    if s.len() > 0 && is_digit(s[0]) {
        1 + digit_run(s.drop_first())
    } else {
        0
    }
}

/// An integer at the front of `s`, which starts with `i`: the value and the
/// number of bytes it takes.
pub open spec fn parse_int(s: Seq<u8>) -> Option<(SValue, int)> {
    let negative = s.len() > 1 && s[1] == MINUS;
    let start: int = if negative { 2 } else { 1 };
    let n = digit_run(s.subrange(start, s.len() as int)) as int;
    let digits = s.subrange(start, start + n);
    if start + n < s.len() && s[start + n] == END && canonical_int(negative, digits) {
        Some((SValue::Int { negative, digits }, start + n + 1))
    } else {
        None
    }
}

/// A byte string at the front of `s`, which starts with a digit.
pub open spec fn parse_bytes(s: Seq<u8>) -> Option<(SValue, int)> {
    let n = digit_run(s) as int;
    let len = digits_value(s.subrange(0, n)) as int;
    if n < s.len() && s[n] == COLON && n + 1 + len <= s.len() {
        Some((SValue::Bytes(s.subrange(n + 1, n + 1 + len)), n + 1 + len))
    } else {
        None
    }
}

/// The grammar: the value at the front of `s` and the number of bytes it
/// takes, or `None` where no value stands there.
pub open spec fn parse(s: Seq<u8>) -> Option<(SValue, int)>
    decreases s.len(), 0int,
{
    if s.len() == 0 {
        None
    } else if s[0] == INT_START {
        parse_int(s)
    } else if is_digit(s[0]) {
        parse_bytes(s)
    } else if s[0] == LIST_START {
        match parse_items(s.drop_first()) {
            Some((items, n)) => Some((SValue::List(items), n + 1)),
            None => None,
        }
    } else if s[0] == DICT_START {
        match parse_entries(s.drop_first(), Seq::empty()) {
            Some((entries, n)) => Some((SValue::Dict(entries), n + 1)),
            None => None,
        }
    } else {
        None
    }
}

/// The items of a list up to and including its terminator.
pub open spec fn parse_items(s: Seq<u8>) -> Option<(Seq<SValue>, int)>
    decreases s.len(), 1int,
{
    if s.len() == 0 {
        None
    } else if s[0] == END {
        Some((Seq::empty(), 1))
    } else {
        match parse(s) {
            Some((v, n)) => if 0 < n <= s.len() {
                match parse_items(s.subrange(n, s.len() as int)) {
                    Some((rest, m)) => Some((seq![v] + rest, n + m)),
                    None => None,
                }
            } else {
                None
            },
            None => None,
        }
    }
}

/// A dictionary, kept in ascending key order, with `(k, v)` put in: it takes
/// the place of an entry with the same key, or goes before the first larger key.
pub open spec fn dict_insert(entries: Seq<(Seq<u8>, SValue)>, k: Seq<u8>, v: SValue) -> Seq<(Seq<u8>, SValue)>
    decreases entries.len(),
{
    if entries.len() == 0 {
        seq![(k, v)]
    } else if entries[0].0 == k {
        seq![(k, v)] + entries.drop_first()
    } else if bytes_lt(k, entries[0].0) {
        seq![(k, v)] + entries
    } else {
        seq![entries[0]] + dict_insert(entries.drop_first(), k, v)
    }
}

/// Entries put into an empty dictionary one by one, in order.
pub open spec fn insert_all(es: Seq<(Seq<u8>, SValue)>) -> Seq<(Seq<u8>, SValue)>
    decreases es.len(),
{
    if es.len() == 0 {
        Seq::empty()
    } else {
        dict_insert(insert_all(es.drop_last()), es.last().0, es.last().1)
    }
}

/// The entries of a dictionary up to and including its terminator, put one
/// by one into `acc`: keys may come in any order, and of two equal keys the
/// later one wins.
pub open spec fn parse_entries(s: Seq<u8>, acc: Seq<(Seq<u8>, SValue)>) -> Option<(Seq<(Seq<u8>, SValue)>, int)>
    decreases s.len(), 1int,
{
    if s.len() == 0 {
        None
    } else if s[0] == END {
        Some((acc, 1))
    } else {
        match parse(s) {
            Some((SValue::Bytes(k), n1)) => if 0 < n1 <= s.len() {
                match parse(s.subrange(n1, s.len() as int)) {
                    Some((v, n2)) => if 0 < n2 <= s.len() - n1 {
                        match parse_entries(s.subrange(n1 + n2, s.len() as int), dict_insert(acc, k, v)) {
                            Some((d, m)) => Some((d, n1 + n2 + m)),
                            None => None,
                        }
                    } else {
                        None
                    },
                    None => None,
                }
            } else {
                None
            },
            _ => None,
        }
    }
}

/// What decoding a buffer yields: the value at its front; bytes after
/// that value are left unread.
pub open spec fn decode_spec(b: Seq<u8>) -> Option<SValue> {
    match parse(b) {
        Some((v, n)) => Some(v),
        None => None,
    }
}


/// The shortest decimal form of `n`.
pub fn decimal_digits(n: u64) -> (r: Vec<u8>)
    ensures
        r@ == decimal(n as nat),
    decreases n,
{
    if n < 10 {
        let d = n as u8 + ZERO;
        let mut r: Vec<u8> = Vec::new();
        r.push(d);
        r
    } else {
        let mut r = decimal_digits(n / 10);
        r.push((n % 10) as u8 + ZERO);
        r
    }
}

/// The entries that a list of indices picks out, as models.
pub open spec fn order_view(es: Seq<(Vec<u8>, Value)>, order: Seq<usize>) -> Seq<(Seq<u8>, SValue)> {
    Seq::new(order.len(), |j: int| (es[order[j] as int].0@, es[order[j] as int].1@))
}

/// The indices of the entries that a dictionary keeps, in ascending key order.
pub(crate) fn sorted_order(entries: &Vec<(Vec<u8>, Value)>) -> (r: Vec<usize>)
    ensures
        forall|k: int| 0 <= k < r@.len() ==> #[trigger] r@[k] < entries@.len(),
        order_view(entries@, r@) == insert_all(entries_view(entries@)),
{
    let ghost ev = entries_view(entries@);
    let mut order: Vec<usize> = Vec::new();
    let mut i: usize = 0;
    assert(order_view(entries@, order@) =~= insert_all(ev.subrange(0, 0)));
    while i < entries.len()
        invariant
            0 <= i <= entries@.len(),
            ev == entries_view(entries@),
            forall|k: int| 0 <= k < order@.len() ==> #[trigger] order@[k] < i,
            order_view(entries@, order@) == insert_all(ev.subrange(0, i as int)),
        decreases entries@.len() - i,
    {
        let ghost ov = order_view(entries@, order@);
        let ghost k = entries@[i as int].0@;
        let ghost v = entries@[i as int].1@;
        let mut p: usize = 0;
        while p < order.len() && bytes_less(entries[order[p]].0.as_slice(), entries[i].0.as_slice())
            invariant
                0 <= p <= order@.len(),
                i < entries@.len(),
                ov == order_view(entries@, order@),
                k == entries@[i as int].0@,
                forall|q: int| 0 <= q < order@.len() ==> #[trigger] order@[q] < i,
                forall|q: int| 0 <= q < p ==> bytes_lt(#[trigger] ov[q].0, k),
            decreases order@.len() - p,
        {
            p = p + 1;
        }
        proof {
            lemma_dict_insert_at(ov, k, v, p as int);
            assert(ev.subrange(0, i + 1).drop_last() =~= ev.subrange(0, i as int));
            assert(ev.subrange(0, i + 1).last() == (k, v));
        }
        if p < order.len() && bytes_equal(entries[order[p]].0.as_slice(), entries[i].0.as_slice()) {
            order.remove(p);
            order.insert(p, i);
            assert(order_view(entries@, order@) =~= ov.subrange(0, p as int) + seq![(k, v)] + ov.subrange(p + 1, ov.len() as int));
        } else {
            order.insert(p, i);
            assert(order_view(entries@, order@) =~= ov.subrange(0, p as int) + seq![(k, v)] + ov.subrange(p as int, ov.len() as int));
        }
        i = i + 1;
    }
    assert(ev.subrange(0, entries@.len() as int) =~= ev);
    order
}

/// Appends the wire form of a byte string.
fn encode_bytes_into(b: &[u8], out: &mut Vec<u8>)
    ensures
        final(out)@ == old(out)@ + encode_bytes(b@),
{
    let digits = decimal_digits(b.len() as u64);
    out.extend_from_slice(digits.as_slice());
    out.push(COLON);
    out.extend_from_slice(b);
    assert(final(out)@ =~= old(out)@ + encode_bytes(b@));
}

impl Value {
    /// Appends the wire form of this value to `out`.
    pub fn encode_into(&self, out: &mut Vec<u8>)
        ensures
            final(out)@ == old(out)@ + encode_value(self@),
            well_formed(self@),
        decreases self@,
    {
        match self {
            Value::Integer(n) => {
                n.lemma_canonical();
                out.push(INT_START);
                if n.is_negative() {
                    out.push(MINUS);
                }
                out.extend_from_slice(n.digits());
                out.push(END);
                assert(final(out)@ =~= old(out)@ + encode_value(self@));
            },
            Value::Bytes(b) => {
                encode_bytes_into(b.as_slice(), out);
            },
            Value::List(items) => {
                out.push(LIST_START);
                let ghost start = out@;
                let ghost model = self@->List_0;
                let mut i: usize = 0;
                while i < items.len()
                    invariant
                        0 <= i <= items@.len(),
                        self@ == SValue::List(model),
                        model.len() == items@.len(),
                        forall|j: int| 0 <= j < items@.len() ==> model[j] == #[trigger] items@[j]@,
                        forall|j: int| 0 <= j < i ==> well_formed(#[trigger] model[j]),
                        out@ == start + encode_items(model.subrange(0, i as int)),
                    decreases items@.len() - i,
                {
                    proof {
                        assert(model.subrange(0, i + 1).drop_last() =~= model.subrange(0, i as int));
                    }
                    proof {
                        assert(decreases_to!(self@ => self@->List_0));
                        assert(decreases_to!(model => model[i as int]));
                        assert(decreases_to!(self@ => items@[i as int]@));
                    }
                    items[i].encode_into(out);
                    i = i + 1;
                }
                out.push(END);
                assert(model.subrange(0, items@.len() as int) =~= model);
                assert(final(out)@ =~= old(out)@ + encode_value(self@));
            },
            Value::Dict(entries) => {
                out.push(DICT_START);
                let ghost start = out@;
                let ghost ev = entries_view(entries@);
                let ghost model = self@->Dict_0;
                assert(self.dict_entries() =~= ev);
                assert(model == insert_all(ev));
                let order = sorted_order(entries);
                let mut j: usize = 0;
                while j < order.len()
                    invariant
                        0 <= j <= order@.len(),
                        self@ == SValue::Dict(model),
                        model == order_view(entries@, order@),
                        forall|k: int| 0 <= k < order@.len() ==> #[trigger] order@[k] < entries@.len(),
                        forall|k: int| 0 <= k < j ==> well_formed(#[trigger] model[k].1),
                        out@ == start + encode_entries(model.subrange(0, j as int)),
                    decreases order@.len() - j,
                {
                    let idx = order[j];
                    proof {
                        assert(model.subrange(0, j + 1).drop_last() =~= model.subrange(0, j as int));
                        assert(decreases_to!(self@ => self@->Dict_0));
                        assert(decreases_to!(model => model[j as int]));
                        assert(decreases_to!(model[j as int] => model[j as int].1));
                        assert(model[j as int].1 == entries@[idx as int].1@);
                    }
                    let ghost before = out@;
                    encode_bytes_into(entries[idx].0.as_slice(), out);
                    entries[idx].1.encode_into(out);
                    assert(out@ =~= before + encode_bytes(model[j as int].0) + encode_value(model[j as int].1));
                    j = j + 1;
                }
                out.push(END);
                proof {
                    assert(model.subrange(0, order@.len() as int) =~= model);
                    lemma_insert_all_ascending(ev);
                }
                assert(final(out)@ =~= old(out)@ + encode_value(self@));
            },
        }
    }

    /// The wire form of this value. Dictionary keys come out in ascending
    /// byte order and once each, whatever order the entries stand in.
    pub fn encode(&self) -> (r: Vec<u8>)
        ensures
            r@ == encode_value(self@),
            well_formed(self@),
    {
        let mut out: Vec<u8> = Vec::new();
        self.encode_into(&mut out);
        assert(out@ =~= encode_value(self@));
        out
    }
}


/// Why a buffer does not decode.
#[derive(Debug, Clone, Copy, PartialEq, Eq)]
pub enum DecodeError {
    /// No value stands at the front of the buffer: a bad marker, a length
    /// prefix without its colon or its bytes, a malformed integer, a
    /// dictionary key that is not a byte string, or an unterminated list or
    /// dictionary.
    Malformed,
}

proof fn lemma_digit_run(s: Seq<u8>, k: int)
    requires
        0 <= k <= s.len(),
        forall|j: int| 0 <= j < k ==> is_digit(#[trigger] s[j]),
        k == s.len() || !is_digit(s[k]),
    ensures
        digit_run(s) == k,
    decreases k,
{
    if k > 0 {
        lemma_digit_run(s.drop_first(), k - 1);
    }
}

pub proof fn lemma_bytes_lt_skip(a: Seq<u8>, b: Seq<u8>, i: int)
    requires
        0 <= i <= a.len(),
        i <= b.len(),
        forall|j: int| 0 <= j < i ==> a[j] == b[j],
    ensures
        bytes_lt(a, b) == bytes_lt(a.subrange(i, a.len() as int), b.subrange(i, b.len() as int)),
    decreases i,
{
    if i > 0 {
        lemma_bytes_lt_skip(a.drop_first(), b.drop_first(), i - 1);
        assert(a.drop_first().subrange(i - 1, a.len() - 1) =~= a.subrange(i, a.len() as int));
        assert(b.drop_first().subrange(i - 1, b.len() - 1) =~= b.subrange(i, b.len() as int));
    } else {
        assert(a.subrange(0, a.len() as int) =~= a);
        assert(b.subrange(0, b.len() as int) =~= b);
    }
}

/// Whether `a` comes strictly before `b` in raw byte order.
pub fn bytes_less(a: &[u8], b: &[u8]) -> (r: bool)
    ensures
        r == bytes_lt(a@, b@),
{
    let mut i: usize = 0;
    while i < a.len() && i < b.len() && a[i] == b[i]
        invariant
            0 <= i <= a@.len(),
            i <= b@.len(),
            forall|j: int| 0 <= j < i ==> a@[j] == b@[j],
        decreases a@.len() - i,
    {
        i = i + 1;
    }
    proof {
        lemma_bytes_lt_skip(a@, b@, i as int);
    }
    if i == b.len() {
        false
    } else if i == a.len() {
        true
    } else {
        a[i] < b[i]
    }
}

/// The end of the run of digits that starts at `pos`.
fn scan_digits(b: &[u8], pos: usize) -> (r: usize)
    requires
        pos <= b@.len(),
    ensures
        pos <= r <= b@.len(),
        r - pos == digit_run(b@.subrange(pos as int, b@.len() as int)),
        forall|j: int| pos <= j < r ==> is_digit(#[trigger] b@[j]),
{
    let mut i: usize = pos;
    while i < b.len() && ZERO <= b[i] && b[i] <= ZERO + 9
        invariant
            pos <= i <= b@.len(),
            forall|j: int| pos <= j < i ==> is_digit(#[trigger] b@[j]),
        decreases b@.len() - i,
    {
        i = i + 1;
    }
    proof {
        let s = b@.subrange(pos as int, b@.len() as int);
        assert forall|j: int| 0 <= j < i - pos implies is_digit(#[trigger] s[j]) by {
            assert(s[j] == b@[pos + j]);
        }
        lemma_digit_run(s, i - pos);
    }
    i
}

/// A copy of `b[start..end]`.
pub(crate) fn copy_range(b: &[u8], start: usize, end: usize) -> (r: Vec<u8>)
    requires
        start <= end <= b@.len(),
    ensures
        r@ == b@.subrange(start as int, end as int),
{
    let mut r: Vec<u8> = Vec::new();
    let mut i: usize = start;
    while i < end
        invariant
            start <= i <= end <= b@.len(),
            r@ == b@.subrange(start as int, i as int),
        decreases end - i,
    {
        r.push(b[i]);
        i = i + 1;
        assert(r@ =~= b@.subrange(start as int, i as int));
    }
    r
}

/// The models of a run of dictionary entries.
pub open spec fn entries_view(es: Seq<(Vec<u8>, Value)>) -> Seq<(Seq<u8>, SValue)> {
    Seq::new(es.len(), |i: int| (es[i].0@, es[i].1@))
}

/// No byte string comes before itself.
pub proof fn lemma_lt_irreflexive(a: Seq<u8>)
    ensures
        !bytes_lt(a, a),
    decreases a.len(),
{
    if a.len() > 0 {
        lemma_lt_irreflexive(a.drop_first());
    }
}

/// Of two byte strings at most one comes before the other.
pub proof fn lemma_lt_asymmetric(a: Seq<u8>, b: Seq<u8>)
    ensures
        bytes_lt(a, b) ==> !bytes_lt(b, a),
    decreases a.len(),
{
    if a.len() > 0 && b.len() > 0 && a[0] == b[0] {
        lemma_lt_asymmetric(a.drop_first(), b.drop_first());
    }
}

/// The byte order is transitive.
pub proof fn lemma_lt_transitive(a: Seq<u8>, b: Seq<u8>, c: Seq<u8>)
    ensures
        bytes_lt(a, b) && bytes_lt(b, c) ==> bytes_lt(a, c),
    decreases a.len(),
{
    if a.len() > 0 && b.len() > 0 && c.len() > 0 && a[0] == b[0] && b[0] == c[0] {
        lemma_lt_transitive(a.drop_first(), b.drop_first(), c.drop_first());
    }
}

/// Of two different byte strings one comes before the other.
pub proof fn lemma_lt_total(a: Seq<u8>, b: Seq<u8>)
    ensures
        a != b ==> bytes_lt(a, b) || bytes_lt(b, a),
    decreases a.len(),
{
    if a.len() > 0 && b.len() > 0 && a[0] == b[0] {
        lemma_lt_total(a.drop_first(), b.drop_first());
        if a.drop_first() == b.drop_first() {
            assert(a =~= seq![a[0]] + a.drop_first());
            assert(b =~= seq![b[0]] + b.drop_first());
        }
    } else if a.len() == 0 && b.len() == 0 {
        assert(a =~= b);
    }
}

/// In ascending keys, every key comes before every later key.
pub proof fn lemma_ascending_all(es: Seq<(Seq<u8>, SValue)>, i: int, j: int)
    requires
        keys_ascending(es),
        0 <= i < j < es.len(),
    ensures
        bytes_lt(es[i].0, es[j].0),
    decreases j - i,
{
    if j > i + 1 {
        lemma_ascending_all(es, i, j - 1);
        lemma_lt_transitive(es[i].0, es[j - 1].0, es[j].0);
    }
}

/// Entries whose keys already ascend are kept as they stand.
pub proof fn lemma_insert_all_sorted(es: Seq<(Seq<u8>, SValue)>)
    requires
        keys_ascending(es),
    ensures
        insert_all(es) == es,
    decreases es.len(),
{
    if es.len() > 0 {
        let d = es.drop_last();
        let n = d.len() as int;
        assert forall|i: int| 0 <= i < d.len() - 1 implies bytes_lt(#[trigger] d[i].0, d[i + 1].0) by {
            assert(d[i] == es[i] && d[i + 1] == es[i + 1]);
        }
        lemma_insert_all_sorted(d);
        assert forall|j: int| 0 <= j < n implies bytes_lt(#[trigger] d[j].0, es.last().0) by {
            lemma_ascending_all(es, j, n);
        }
        lemma_dict_insert_at(d, es.last().0, es.last().1, n);
        assert(d.subrange(0, n) + seq![(es.last().0, es.last().1)] + d.subrange(n, n) =~= es);
    } else {
        assert(es =~= Seq::<(Seq<u8>, SValue)>::empty());
    }
}

/// Entries put in one by one always leave the keys ascending.
pub proof fn lemma_insert_all_ascending(es: Seq<(Seq<u8>, SValue)>)
    ensures
        keys_ascending(insert_all(es)),
    decreases es.len(),
{
    if es.len() > 0 {
        lemma_insert_all_ascending(es.drop_last());
        insert_keeps_keys_ascending(insert_all(es.drop_last()), es.last().0, es.last().1);
    }
}

/// Looking up a key after an insertion.
pub proof fn lemma_dict_get_insert(d: Seq<(Seq<u8>, SValue)>, k2: Seq<u8>, v: SValue, k: Seq<u8>)
    ensures
        dict_get(dict_insert(d, k2, v), k) == if k == k2 { Some(v) } else { dict_get(d, k) },
    decreases d.len(),
{
    reveal_with_fuel(dict_get, 2);
    if d.len() > 0 {
        let r = dict_insert(d, k2, v);
        if d[0].0 == k2 {
            assert(r[0] == (k2, v));
            assert(r.drop_first() =~= d.drop_first());
        } else if bytes_lt(k2, d[0].0) {
            assert(r[0] == (k2, v));
            assert(r.drop_first() =~= d);
        } else {
            lemma_dict_get_insert(d.drop_first(), k2, v, k);
            assert(r[0] == d[0]);
            assert(r.drop_first() =~= dict_insert(d.drop_first(), k2, v));
        }
    } else {
        let r = dict_insert(d, k2, v);
        assert(r[0] == (k2, v));
        assert(r.drop_first() =~= Seq::<(Seq<u8>, SValue)>::empty());
    }
}

/// Where a key goes: after the `p` smaller keys.
proof fn lemma_dict_insert_at(es: Seq<(Seq<u8>, SValue)>, k: Seq<u8>, v: SValue, p: int)
    requires
        0 <= p <= es.len(),
        forall|j: int| 0 <= j < p ==> bytes_lt(#[trigger] es[j].0, k),
        p == es.len() || !bytes_lt(es[p].0, k),
    ensures
        dict_insert(es, k, v) == if p < es.len() && es[p].0 == k {
            es.subrange(0, p) + seq![(k, v)] + es.subrange(p + 1, es.len() as int)
        } else {
            es.subrange(0, p) + seq![(k, v)] + es.subrange(p, es.len() as int)
        },
    decreases p,
{
    if p == 0 {
        if es.len() > 0 && es[0].0 != k {
            lemma_lt_total(es[0].0, k);
        }
        assert(es.subrange(0, 0) + seq![(k, v)] + es.subrange(1, es.len() as int) =~= seq![(k, v)] + es.drop_first());
        assert(es.subrange(0, 0) + seq![(k, v)] + es.subrange(0, es.len() as int) =~= seq![(k, v)] + es);
    } else {
        lemma_lt_irreflexive(k);
        lemma_lt_asymmetric(es[0].0, k);
        let t = es.drop_first();
        assert forall|j: int| 0 <= j < p - 1 implies bytes_lt(#[trigger] t[j].0, k) by {
            assert(t[j] == es[j + 1]);
        }
        lemma_dict_insert_at(t, k, v, p - 1);
        if p < es.len() && es[p].0 == k {
            assert(t[p - 1] == es[p]);
            assert(seq![es[0]] + (t.subrange(0, p - 1) + seq![(k, v)] + t.subrange(p, t.len() as int))
                =~= es.subrange(0, p) + seq![(k, v)] + es.subrange(p + 1, es.len() as int));
        } else {
            if p < es.len() {
                assert(t[p - 1] == es[p]);
            }
            assert(seq![es[0]] + (t.subrange(0, p - 1) + seq![(k, v)] + t.subrange(p - 1, t.len() as int))
                =~= es.subrange(0, p) + seq![(k, v)] + es.subrange(p, es.len() as int));
        }
    }
}

/// Puts `(key, value)` into a dictionary's entries as `dict_insert` says.
pub fn insert_entry(entries: &mut Vec<(Vec<u8>, Value)>, key: Vec<u8>, value: Value)
    ensures
        entries_view(final(entries)@) == dict_insert(entries_view(old(entries)@), key@, value@),
{
    let ghost es = entries_view(entries@);
    let mut p: usize = 0;
    while p < entries.len() && bytes_less(entries[p].0.as_slice(), key.as_slice())
        invariant
            0 <= p <= entries@.len(),
            es == entries_view(entries@),
            forall|j: int| 0 <= j < p ==> bytes_lt(#[trigger] es[j].0, key@),
        decreases entries@.len() - p,
    {
        p = p + 1;
    }
    proof {
        lemma_dict_insert_at(es, key@, value@, p as int);
    }
    let ghost k = key@;
    let ghost v = value@;
    if p < entries.len() && bytes_equal(entries[p].0.as_slice(), key.as_slice()) {
        entries.remove(p);
        entries.insert(p, (key, value));
        assert(entries_view(entries@) =~= es.subrange(0, p as int) + seq![(k, v)] + es.subrange(p + 1, es.len() as int));
    } else {
        entries.insert(p, (key, value));
        assert(entries_view(entries@) =~= es.subrange(0, p as int) + seq![(k, v)] + es.subrange(p as int, es.len() as int));
    }
}

/// The result of a parse at `pos` agrees with the grammar on what follows `pos`.
pub open spec fn agrees(r: Option<(Value, usize)>, b: Seq<u8>, pos: int) -> bool {
    match parse(b.subrange(pos, b.len() as int)) {
        Some((v, n)) => r is Some && (r->0).0@ == v && (r->0).1 == pos + n && pos < (r->0).1 <= b.len(),
        None => r is None,
    }
}

fn parse_int_at(b: &[u8], pos: usize) -> (r: Option<(Value, usize)>)
    requires
        pos < b@.len(),
        b@[pos as int] == INT_START,
    ensures
        agrees(r, b@, pos as int),
{
    let ghost s = b@.subrange(pos as int, b@.len() as int);
    let len = b.len();
    let negative = pos + 1 < len && b[pos + 1] == MINUS;
    let start = if negative { pos + 2 } else { pos + 1 };
    let end = scan_digits(b, start);
    proof {
        assert(s.subrange(start - pos, s.len() as int) =~= b@.subrange(start as int, b@.len() as int));
        assert(s.subrange(start - pos, end - pos) =~= b@.subrange(start as int, end as int));
    }
    if end < b.len() && b[end] == END && end > start && (b[start] != ZERO || (end == start + 1 && !negative)) {
        let digits = copy_range(b, start, end);
        Some((Value::Integer(Integer { negative, digits }), end + 1))
    } else {
        None
    }
}

fn parse_bytes_at(b: &[u8], pos: usize) -> (r: Option<(Value, usize)>)
    requires
        pos < b@.len(),
        is_digit(b@[pos as int]),
    ensures
        agrees(r, b@, pos as int),
{
    let ghost s = b@.subrange(pos as int, b@.len() as int);
    let end = scan_digits(b, pos);
    let mut acc: usize = 0;
    let mut too_big = false;
    let mut j: usize = pos;
    while j < end
        invariant
            pos <= j <= end <= b@.len(),
            forall|k: int| pos <= k < end ==> is_digit(#[trigger] b@[k]),
            too_big ==> digits_value(b@.subrange(pos as int, j as int)) > b@.len(),
            !too_big ==> acc == digits_value(b@.subrange(pos as int, j as int)) && acc <= b@.len(),
        decreases end - j,
    {
        let ghost old_value = digits_value(b@.subrange(pos as int, j as int));
        assert(b@.subrange(pos as int, j + 1).drop_last() =~= b@.subrange(pos as int, j as int));
        let d = b[j] - ZERO;
        let ghost new_value = digits_value(b@.subrange(pos as int, j + 1));
        assert(new_value == old_value * 10 + d);
        if !too_big {
            let next: u128 = acc as u128 * 10 + d as u128;
            if next > b.len() as u128 {
                too_big = true;
            } else {
                acc = next as usize;
            }
        } else {
            assert(new_value >= old_value) by (nonlinear_arith)
                requires new_value == old_value * 10 + d, d >= 0;
        }
        j = j + 1;
    }
    proof {
        assert(s.subrange(0, end - pos) =~= b@.subrange(pos as int, end as int));
        assert(b@.subrange(pos as int, b@.len() as int) =~= s);
    }
    if end < b.len() && b[end] == COLON && !too_big && acc <= b.len() - (end + 1) {
        let bytes = copy_range(b, end + 1, end + 1 + acc);
        proof {
            assert(s.subrange(end - pos + 1, end - pos + 1 + acc) =~= b@.subrange(end + 1, end + 1 + acc));
        }
        Some((Value::Bytes(bytes), end + 1 + acc))
    } else {
        None
    }
}

/// Parses the value that starts at `pos`.
fn parse_value_at(b: &[u8], pos: usize) -> (r: Option<(Value, usize)>)
    requires
        pos <= b@.len(),
    ensures
        agrees(r, b@, pos as int),
    decreases b@.len() - pos, 1int,
{
    let ghost s = b@.subrange(pos as int, b@.len() as int);
    if pos == b.len() {
        None
    } else if b[pos] == INT_START {
        parse_int_at(b, pos)
    } else if ZERO <= b[pos] && b[pos] <= ZERO + 9 {
        parse_bytes_at(b, pos)
    } else if b[pos] == LIST_START {
        parse_list_at(b, pos)
    } else if b[pos] == DICT_START {
        parse_dict_at(b, pos)
    } else {
        None
    }
}

fn parse_list_at(b: &[u8], pos: usize) -> (r: Option<(Value, usize)>)
    requires
        pos < b@.len(),
        b@[pos as int] == LIST_START,
    ensures
        agrees(r, b@, pos as int),
    decreases b@.len() - pos, 0int,
{
    let ghost s = b@.subrange(pos as int, b@.len() as int);
    let ghost first = b@.subrange(pos + 1, b@.len() as int);
    assert(s.drop_first() =~= first);
    let mut items: Vec<Value> = Vec::new();
    let len = b.len();
    assert(len == b@.len());
    let mut p: usize = pos + 1;
    loop
        invariant
            pos + 1 <= p <= b@.len(),
            first == b@.subrange(pos + 1, b@.len() as int),
            s == b@.subrange(pos as int, b@.len() as int),
            s.drop_first() == first,
            s[0] == LIST_START,
            parse(s) == match parse_items(first) {
                Some((items, n)) => Some((SValue::List(items), n + 1)),
                None => None,
            },
            parse_items(first) == match parse_items(b@.subrange(p as int, b@.len() as int)) {
                Some((rest, m)) => Some((Value::List(items)@->List_0 + rest, (p - pos - 1) + m)),
                None => None,
            },
        decreases b@.len() - p,
    {
        let ghost here = b@.subrange(p as int, b@.len() as int);
        if p == b.len() {
            return None;
        }
        if b[p] == END {
            assert(Value::List(items)@->List_0 + Seq::<SValue>::empty() =~= Value::List(items)@->List_0);
            return Some((Value::List(items), p + 1));
        }
        match parse_value_at(b, p) {
            None => {
                return None;
            },
            Some((v, e)) => {
                let ghost before = Value::List(items)@->List_0;
                assert(here.subrange(e - p, here.len() as int) =~= b@.subrange(e as int, b@.len() as int));
                items.push(v);
                assert(Value::List(items)@->List_0 =~= before.push(v@));
                assert forall|rest: Seq<SValue>| #![auto] before + (seq![v@] + rest) == Value::List(items)@->List_0 + rest by {
                    assert(before + (seq![v@] + rest) =~= Value::List(items)@->List_0 + rest);
                }
                p = e;
            },
        }
    }
}

fn parse_dict_at(b: &[u8], pos: usize) -> (r: Option<(Value, usize)>)
    requires
        pos < b@.len(),
        b@[pos as int] == DICT_START,
    ensures
        agrees(r, b@, pos as int),
    decreases b@.len() - pos, 0int,
{
    let ghost s = b@.subrange(pos as int, b@.len() as int);
    let ghost first = b@.subrange(pos + 1, b@.len() as int);
    assert(s.drop_first() =~= first);
    let mut entries: Vec<(Vec<u8>, Value)> = Vec::new();
    assert(entries_view(entries@) =~= Seq::<(Seq<u8>, SValue)>::empty());
    let len = b.len();
    assert(len == b@.len());
    let mut p: usize = pos + 1;
    loop
        invariant
            pos + 1 <= p <= b@.len(),
            len == b@.len(),
            first == b@.subrange(pos + 1, b@.len() as int),
            s == b@.subrange(pos as int, b@.len() as int),
            s.drop_first() == first,
            s[0] == DICT_START,
            parse(s) == match parse_entries(first, Seq::empty()) {
                Some((entries, n)) => Some((SValue::Dict(entries), n + 1)),
                None => None,
            },
            parse_entries(first, Seq::empty()) == match parse_entries(
                b@.subrange(p as int, b@.len() as int),
                entries_view(entries@),
            ) {
                Some((d, m)) => Some((d, (p - pos - 1) + m)),
                None => None,
            },
            keys_ascending(entries_view(entries@)),
        decreases b@.len() - p,
    {
        let ghost here = b@.subrange(p as int, b@.len() as int);
        if p == len {
            return None;
        }
        if b[p] == END {
            let r = Value::Dict(entries);
            proof {
                assert(r.dict_entries() =~= entries_view(entries@));
                lemma_insert_all_sorted(entries_view(entries@));
            }
            return Some((r, p + 1));
        }
        let (key, e1) = match parse_value_at(b, p) {
            Some((Value::Bytes(key), e1)) => (key, e1),
            _ => {
                return None;
            },
        };
        assert(here.subrange(e1 - p, here.len() as int) =~= b@.subrange(e1 as int, b@.len() as int));
        match parse_value_at(b, e1) {
            None => {
                return None;
            },
            Some((v, e2)) => {
                assert(here.subrange(e1 - p + (e2 - e1), here.len() as int) =~= b@.subrange(e2 as int, b@.len() as int));
                proof {
                    insert_keeps_keys_ascending(entries_view(entries@), key@, v@);
                }
                insert_entry(&mut entries, key, v);
                p = e2;
            },
        }
    }
}

/// Decodes the value at the front of a buffer.
pub fn decode(b: &[u8]) -> (r: Result<Value, DecodeError>)
    ensures
        match decode_spec(b@) {
            Some(v) => r is Ok && r->Ok_0@ == v,
            None => r == Err::<Value, DecodeError>(DecodeError::Malformed),
        },
{
    assert(b@.subrange(0, b@.len() as int) =~= b@);
    match parse_value_at(b, 0) {
        None => Err(DecodeError::Malformed),
        Some((v, end)) => Ok(v),
    }
}

/// Decodes the value at the front of bencoded text.
pub fn decode_bencoded_value(encoded: &str) -> (r: Result<Value, DecodeError>)
    ensures
        match decode_spec(encoded.spec_bytes()) {
            Some(v) => r is Ok && r->Ok_0@ == v,
            None => r == Err::<Value, DecodeError>(DecodeError::Malformed),
        },
{
    decode(encoded.as_bytes())
}


proof fn lemma_decimal(n: nat)
    ensures
        decimal(n).len() > 0,
        forall|i: int| 0 <= i < decimal(n).len() ==> is_digit(#[trigger] decimal(n)[i]),
        digits_value(decimal(n)) == n,
    decreases n,
{
    let d = decimal(n);
    if n >= 10 {
        lemma_decimal(n / 10);
        assert(d.drop_last() =~= decimal(n / 10));
        assert(n == (n / 10) * 10 + n % 10) by (nonlinear_arith);
        assert(d.last() == (n % 10 + ZERO) as u8);
        assert(digits_value(d) == digits_value(decimal(n / 10)) * 10 + (n % 10));
        assert forall|i: int| 0 <= i < d.len() implies is_digit(#[trigger] d[i]) by {
            if i < d.len() - 1 {
                assert(d[i] == decimal(n / 10)[i]);
            }
        }
    } else {
        assert(d.drop_last() =~= Seq::<u8>::empty());
        assert(digits_value(d) == digits_value(Seq::<u8>::empty()) * 10 + n);
    }
}

/// A byte string's wire form parses back to it, whatever follows.
proof fn lemma_parse_bytes_encode(b: Seq<u8>, rest: Seq<u8>)
    ensures
        encode_bytes(b).len() > 0,
        is_digit(encode_bytes(b)[0]),
        parse(encode_bytes(b) + rest) == Some((SValue::Bytes(b), encode_bytes(b).len() as int)),
{
    let s = encode_bytes(b) + rest;
    let d = decimal(b.len());
    lemma_decimal(b.len());
    let n = d.len() as int;
    assert(encode_bytes(b)[0] == d[0]);
    assert forall|j: int| 0 <= j < n implies is_digit(#[trigger] s[j]) by {
        assert(s[j] == d[j]);
    }
    assert(s[n] == COLON);
    lemma_digit_run(s, n);
    assert(s.subrange(0, n) =~= d);
    assert(s.subrange(n + 1, n + 1 + b.len()) =~= b);
}

proof fn lemma_encode_items_front(items: Seq<SValue>)
    requires
        items.len() > 0,
    ensures
        encode_items(items) == encode_value(items[0]) + encode_items(items.drop_first()),
    decreases items.len(),
{
    if items.len() > 1 {
        lemma_encode_items_front(items.drop_last());
        assert(items.drop_last().drop_first() =~= items.drop_first().drop_last());
        assert(items.drop_first().last() == items.last());
        assert(encode_items(items) =~= encode_value(items[0]) + encode_items(items.drop_first()));
    } else {
        assert(items.drop_last() =~= Seq::<SValue>::empty());
        assert(items.drop_first() =~= Seq::<SValue>::empty());
        assert(encode_items(items) =~= encode_value(items[0]) + encode_items(items.drop_first()));
    }
}

proof fn lemma_encode_entries_front(entries: Seq<(Seq<u8>, SValue)>)
    requires
        entries.len() > 0,
    ensures
        encode_entries(entries) == encode_bytes(entries[0].0) + encode_value(entries[0].1)
            + encode_entries(entries.drop_first()),
    decreases entries.len(),
{
    if entries.len() > 1 {
        lemma_encode_entries_front(entries.drop_last());
        assert(entries.drop_last().drop_first() =~= entries.drop_first().drop_last());
        assert(entries.drop_first().last() == entries.last());
        assert(encode_entries(entries) =~= encode_bytes(entries[0].0) + encode_value(entries[0].1)
            + encode_entries(entries.drop_first()));
    } else {
        assert(entries.drop_last() =~= Seq::<(Seq<u8>, SValue)>::empty());
        assert(entries.drop_first() =~= Seq::<(Seq<u8>, SValue)>::empty());
        assert(encode_entries(entries) =~= encode_bytes(entries[0].0) + encode_value(entries[0].1)
            + encode_entries(entries.drop_first()));
    }
}

proof fn lemma_parse_encode(v: SValue, rest: Seq<u8>)
    requires
        well_formed(v),
    ensures
        encode_value(v).len() > 0,
        parse(encode_value(v) + rest) == Some((v, encode_value(v).len() as int)),
    decreases v,
{
    let e = encode_value(v);
    let s = e + rest;
    match v {
        SValue::Int { negative, digits } => {
            let start: int = if negative { 2 } else { 1 };
            let n = digits.len() as int;
            assert(s[0] == INT_START);
            assert(s.len() > 1);
            if negative {
                assert(s[1] == MINUS);
            } else {
                assert(s[1] == digits[0]);
            }
            let tail = s.subrange(start, s.len() as int);
            assert forall|j: int| 0 <= j < n implies is_digit(#[trigger] tail[j]) by {
                assert(tail[j] == digits[j]);
            }
            assert(tail[n] == END);
            lemma_digit_run(tail, n);
            assert(s.subrange(start, start + n) =~= digits);
            assert(s[start + n] == END);
        },
        SValue::Bytes(b) => {
            lemma_parse_bytes_encode(b, rest);
        },
        SValue::List(items) => {
            assert(decreases_to!(v => v->List_0));
            lemma_parse_items_encode(items, rest);
            assert(s.drop_first() =~= encode_items(items) + seq![END] + rest);
        },
        SValue::Dict(entries) => {
            assert(decreases_to!(v => v->Dict_0));
            lemma_parse_entries_encode(entries, Seq::empty(), rest);
            assert(Seq::<(Seq<u8>, SValue)>::empty() + entries =~= entries);
            assert(s.drop_first() =~= encode_entries(entries) + seq![END] + rest);
        },
    }
}

proof fn lemma_parse_items_encode(items: Seq<SValue>, rest: Seq<u8>)
    requires
        forall|i: int| 0 <= i < items.len() ==> well_formed(#[trigger] items[i]),
    ensures
        parse_items(encode_items(items) + seq![END] + rest)
            == Some((items, encode_items(items).len() + 1int)),
    decreases items,
{
    let s = encode_items(items) + seq![END] + rest;
    if items.len() == 0 {
        assert(items =~= Seq::<SValue>::empty());
        assert(s[0] == END);
    } else {
        let tail = items.drop_first();
        let after = encode_items(tail) + seq![END] + rest;
        lemma_encode_items_front(items);
        assert(s =~= encode_value(items[0]) + after);
        lemma_parse_encode(items[0], after);
        let n = encode_value(items[0]).len() as int;
        assert(s[0] == encode_value(items[0])[0]);
        assert(encode_value(items[0])[0] != END) by {
            if items[0] is Bytes {
                lemma_parse_bytes_encode(items[0]->Bytes_0, rest);
            }
        }
        lemma_parse_items_encode(tail, rest);
        assert(s.subrange(n, s.len() as int) =~= after);
        assert(seq![items[0]] + tail =~= items);
    }
}

#[verifier::rlimit(100)]
proof fn lemma_parse_entries_encode(
    entries: Seq<(Seq<u8>, SValue)>,
    acc: Seq<(Seq<u8>, SValue)>,
    rest: Seq<u8>,
)
    requires
        forall|i: int| 0 <= i < entries.len() ==> well_formed(#[trigger] entries[i].1),
        keys_ascending(entries),
        entries.len() > 0 ==> forall|j: int| 0 <= j < acc.len() ==> bytes_lt(#[trigger] acc[j].0, entries[0].0),
    ensures
        parse_entries(encode_entries(entries) + seq![END] + rest, acc)
            == Some((acc + entries, encode_entries(entries).len() + 1int)),
    decreases entries,
{
    let s = encode_entries(entries) + seq![END] + rest;
    if entries.len() == 0 {
        assert(entries =~= Seq::<(Seq<u8>, SValue)>::empty());
        assert(s[0] == END);
        assert(acc + entries =~= acc);
    } else {
        let k = entries[0].0;
        let v = entries[0].1;
        let tail = entries.drop_first();
        let after = encode_entries(tail) + seq![END] + rest;
        lemma_encode_entries_front(entries);
        assert(s =~= encode_bytes(k) + (encode_value(v) + after));
        lemma_parse_bytes_encode(k, encode_value(v) + after);
        let n1 = encode_bytes(k).len() as int;
        assert(s[0] == encode_bytes(k)[0]);
        assert(decreases_to!(entries => entries[0]));
        lemma_parse_encode(v, after);
        let n2 = encode_value(v).len() as int;
        assert(s.subrange(n1, s.len() as int) =~= encode_value(v) + after);
        assert(s.subrange(n1 + n2, s.len() as int) =~= after);
        lemma_dict_insert_at(acc, k, v, acc.len() as int);
        let acc2 = dict_insert(acc, k, v);
        assert(acc2 =~= acc.push((k, v)));
        assert forall|i: int| 0 <= i < tail.len() - 1 implies bytes_lt(#[trigger] tail[i].0, tail[i + 1].0) by {
            assert(tail[i] == entries[i + 1]);
            assert(tail[i + 1] == entries[i + 2]);
        }
        if tail.len() > 0 {
            assert(tail[0] == entries[1]);
            assert forall|j: int| 0 <= j < acc2.len() implies bytes_lt(#[trigger] acc2[j].0, tail[0].0) by {
                if j < acc.len() {
                    lemma_lt_transitive(acc[j].0, k, tail[0].0);
                }
            }
        }
        lemma_parse_entries_encode(tail, acc2, rest);
        assert(acc2 + tail =~= acc + entries);
    }
}

/// Decoding the wire form of any well-formed value gives that value back:
/// lists and dictionaries, nested to any depth, come back equal. The model
/// of every `Value` is well formed, as `Value::encode` states.
pub proof fn value_round_trip(v: SValue)
    requires
        well_formed(v),
    ensures
        decode_spec(encode_value(v)) == Some(v),
{
    lemma_parse_encode(v, Seq::empty());
    assert(encode_value(v) + Seq::<u8>::empty() =~= encode_value(v));
}

/// Every byte string, the empty one included, decodes from its wire form.
pub proof fn bytes_round_trip(b: Seq<u8>)
    ensures
        decode_spec(encode_value(SValue::Bytes(b))) == Some(SValue::Bytes(b)),
{
    value_round_trip(SValue::Bytes(b));
}

/// The bytes from which an integer was decoded are that integer's wire
/// form: decoding and encoding again gives the same bytes.
pub proof fn integer_round_trip(b: Seq<u8>)
    requires
        parse(b) matches Some((SValue::Int { .. }, _)),
    ensures
        encode_value(parse(b)->Some_0.0) == b.subrange(0, parse(b)->Some_0.1),
{
    let v = parse(b)->Some_0.0;
    assert(encode_value(v) =~= b.subrange(0, parse(b)->Some_0.1));
}


/// The value of the first entry of a dictionary whose key is `key`.
pub open spec fn dict_get(entries: Seq<(Seq<u8>, SValue)>, key: Seq<u8>) -> Option<SValue>
    decreases entries.len(),
{
    if entries.len() == 0 {
        None
    } else if entries[0].0 == key {
        Some(entries[0].1)
    } else {
        dict_get(entries.drop_first(), key)
    }
}

/// The model of a value that may be absent.
pub open spec fn opt_view(v: Option<&Value>) -> Option<SValue> {
    match v {
        Some(w) => Some(w@),
        None => None,
    }
}

/// Relies on `String::from_utf8`: it succeeds exactly on valid UTF-8 and then
/// holds the characters those bytes encode.
#[verifier::external_body]
pub(crate) fn text_from_utf8(b: Vec<u8>) -> (r: Option<String>)
    ensures
        r is Some <==> valid_utf8(b@),
        r matches Some(s) ==> s@ == decode_utf8(b@),
{
    String::from_utf8(b).ok()
}

/// The value stored under `key`, where `v` is a dictionary.
pub open spec fn lookup(v: SValue, key: Seq<u8>) -> Option<SValue> {
    match v {
        SValue::Dict(entries) => dict_get(entries, key),
        _ => None,
    }
}

/// Whether two byte strings are equal.
pub fn bytes_equal(a: &[u8], b: &[u8]) -> (r: bool)
    ensures
        r == (a@ == b@),
{
    if a.len() != b.len() {
        return false;
    }
    let mut i: usize = 0;
    while i < a.len()
        invariant
            0 <= i <= a@.len(),
            a@.len() == b@.len(),
            forall|j: int| 0 <= j < i ==> a@[j] == b@[j],
        decreases a@.len() - i,
    {
        if a[i] != b[i] {
            return false;
        }
        i = i + 1;
    }
    assert(a@ =~= b@);
    true
}

/// The number that a run of decimal digits stands for, where it fits a `usize`.
pub fn digits_to_usize(digits: &[u8]) -> (r: Option<usize>)
    requires
        forall|i: int| 0 <= i < digits@.len() ==> is_digit(#[trigger] digits@[i]),
    ensures
        r matches Some(n) ==> n == digits_value(digits@),
        r is None <==> digits_value(digits@) > usize::MAX,
{
    let mut acc: usize = 0;
    let mut i: usize = 0;
    while i < digits.len()
        invariant
            0 <= i <= digits@.len(),
            forall|k: int| 0 <= k < digits@.len() ==> is_digit(#[trigger] digits@[k]),
            acc == digits_value(digits@.subrange(0, i as int)),
        decreases digits@.len() - i,
    {
        assert(digits@.subrange(0, i + 1).drop_last() =~= digits@.subrange(0, i as int));
        let d = digits[i] - ZERO;
        let next: u128 = acc as u128 * 10 + d as u128;
        if next > usize::MAX as u128 {
            proof {
                lemma_digits_value_prefix(digits@, i + 1);
            }
            return None;
        }
        acc = next as usize;
        i = i + 1;
    }
    assert(digits@.subrange(0, digits@.len() as int) =~= digits@);
    Some(acc)
}

/// A longer run of digits never stands for a smaller number.
proof fn lemma_digits_value_prefix(d: Seq<u8>, k: int)
    requires
        0 <= k <= d.len(),
    ensures
        digits_value(d.subrange(0, k)) <= digits_value(d),
    decreases d.len() - k,
{
    if k < d.len() {
        lemma_digits_value_prefix(d, k + 1);
        let a = digits_value(d.subrange(0, k));
        let b = digits_value(d.subrange(0, k + 1));
        assert(d.subrange(0, k + 1).drop_last() =~= d.subrange(0, k));
        assert(b == a * 10 + (d[k] - ZERO) as nat);
        assert(a <= b) by (nonlinear_arith)
            requires b == a * 10 + (d[k] - ZERO) as nat;
    } else {
        assert(d.subrange(0, k) =~= d);
    }
}

impl Value {
    /// The value stored under `key`, where this value is a dictionary.
    pub fn get(&self, key: &[u8]) -> (r: Option<&Value>)
        ensures
            opt_view(r) == lookup(self@, key@),
    {
        match self {
            Value::Dict(entries) => {
                let ghost ev = entries_view(entries@);
                assert(self.dict_entries() =~= ev);
                assert(ev.subrange(0, ev.len() as int) =~= ev);
                let mut i: usize = entries.len();
                while i > 0
                    invariant
                        0 <= i <= entries@.len(),
                        self@ == SValue::Dict(insert_all(ev)),
                        ev == entries_view(entries@),
                        dict_get(insert_all(ev), key@) == dict_get(insert_all(ev.subrange(0, i as int)), key@),
                    decreases i,
                {
                    let ghost sub = ev.subrange(0, i as int);
                    proof {
                        assert(sub.drop_last() =~= ev.subrange(0, i - 1));
                        lemma_dict_get_insert(insert_all(sub.drop_last()), sub.last().0, sub.last().1, key@);
                    }
                    if bytes_equal(entries[i - 1].0.as_slice(), key) {
                        return Some(&entries[i - 1].1);
                    }
                    i = i - 1;
                }
                None
            },
            _ => None,
        }
    }

    /// A non-negative integer as a `usize`, where it is one and fits.
    pub fn as_usize(&self) -> (r: Option<usize>)
        ensures
            r == usize_of(self@),
    {
        match self {
            Value::Integer(n) => {
                n.lemma_canonical();
                if n.is_negative() {
                    None
                } else {
                    digits_to_usize(n.digits())
                }
            },
            _ => None,
        }
    }

    /// The integer whose value is `n`.
    pub fn from_usize(n: usize) -> (r: Value)
        ensures
            r@ == (SValue::Int { negative: false, digits: decimal(n as nat) }),
            well_formed(r@),
            int_value(false, decimal(n as nat)) == n,
    {
        proof {
            lemma_decimal_canonical(n as nat);
        }
        Value::Integer(Integer { negative: false, digits: decimal_digits(n as u64) })
    }

    /// The integer whose value is `n`.
    pub fn from_i64(n: i64) -> (r: Value)
        ensures
            r@ == (SValue::Int { negative: n < 0, digits: decimal(abs_nat(n as int)) }),
            well_formed(r@),
            int_value(n < 0, decimal(abs_nat(n as int))) == n,
    {
        let m: u64 = if n < 0 { (-(n as i128)) as u64 } else { n as u64 };
        proof {
            lemma_decimal_canonical(m as nat);
        }
        Value::Integer(Integer { negative: n < 0, digits: decimal_digits(m) })
    }
}

/// The magnitude of an integer.
pub open spec fn abs_nat(n: int) -> nat {
    if n < 0 { (-n) as nat } else { n as nat }
}

/// What a value gives as a `usize`: a non-negative canonical integer that fits.
pub open spec fn usize_of(v: SValue) -> Option<usize> {
    match v {
        SValue::Int { negative, digits } => if !negative && (forall|i: int|
            0 <= i < digits.len() ==> is_digit(#[trigger] digits[i])) && digits_value(digits) <= usize::MAX {
            Some(digits_value(digits) as usize)
        } else {
            None
        },
        _ => None,
    }
}

/// The decimal form of a number is canonical.
pub proof fn lemma_decimal_canonical(n: nat)
    ensures
        canonical_int(false, decimal(n)),
        digits_value(decimal(n)) == n,
        n > 0 ==> decimal(n)[0] != ZERO,
    decreases n,
{
    lemma_decimal(n);
    if n >= 10 {
        lemma_decimal_canonical(n / 10);
        lemma_decimal(n / 10);
        assert(decimal(n)[0] == decimal(n / 10)[0]);
        assert(n / 10 > 0);
    }
}


proof fn lemma_ascending_cons(x: (Seq<u8>, SValue), r: Seq<(Seq<u8>, SValue)>)
    requires
        keys_ascending(r),
        r.len() > 0 ==> bytes_lt(x.0, r[0].0),
    ensures
        keys_ascending(seq![x] + r),
{
    let c = seq![x] + r;
    assert forall|i: int| 0 <= i < c.len() - 1 implies bytes_lt(#[trigger] c[i].0, c[i + 1].0) by {
        if i > 0 {
            assert(c[i] == r[i - 1]);
            assert(c[i + 1] == r[i]);
        }
    }
}

proof fn lemma_ascending_tail(es: Seq<(Seq<u8>, SValue)>)
    requires
        keys_ascending(es),
        es.len() > 0,
    ensures
        keys_ascending(es.drop_first()),
{
    let t = es.drop_first();
    assert forall|i: int| 0 <= i < t.len() - 1 implies bytes_lt(#[trigger] t[i].0, t[i + 1].0) by {
        assert(t[i] == es[i + 1]);
        assert(t[i + 1] == es[i + 2]);
    }
}

/// Putting an entry into a dictionary whose keys ascend keeps them
/// ascending, so a dictionary built by insertions, in whatever order, is
/// encoded with its keys in ascending byte order.
pub proof fn insert_keeps_keys_ascending(es: Seq<(Seq<u8>, SValue)>, k: Seq<u8>, v: SValue)
    requires
        keys_ascending(es),
    ensures
        keys_ascending(dict_insert(es, k, v)),
    decreases es.len(),
{
    if es.len() == 0 {
        assert(keys_ascending(seq![(k, v)]));
    } else {
        let t = es.drop_first();
        lemma_ascending_tail(es);
        if es[0].0 == k {
            if t.len() > 0 {
                assert(t[0] == es[1]);
            }
            lemma_ascending_cons((k, v), t);
        } else if bytes_lt(k, es[0].0) {
            lemma_ascending_cons((k, v), es);
        } else {
            lemma_lt_total(es[0].0, k);
            insert_keeps_keys_ascending(t, k, v);
            let d = dict_insert(t, k, v);
            if t.len() > 0 {
                assert(t[0] == es[1]);
            }
            assert(d.len() > 0);
            assert(d[0].0 == k || d[0] == t[0]);
            lemma_ascending_cons(es[0], d);
        }
    }
}


proof fn lemma_items_unterminated(items: Seq<SValue>)
    requires
        forall|i: int| 0 <= i < items.len() ==> well_formed(#[trigger] items[i]),
    ensures
        parse_items(encode_items(items)) is None,
    decreases items.len(),
{
    if items.len() > 0 {
        let tail = items.drop_first();
        lemma_encode_items_front(items);
        lemma_parse_encode(items[0], encode_items(tail));
        let s = encode_items(items);
        let n = encode_value(items[0]).len() as int;
        assert(s[0] == encode_value(items[0])[0]);
        assert(encode_value(items[0])[0] != END) by {
            if items[0] is Bytes {
                lemma_parse_bytes_encode(items[0]->Bytes_0, Seq::empty());
            }
        }
        assert(s.subrange(n, s.len() as int) =~= encode_items(tail));
        lemma_items_unterminated(tail);
    }
}

#[verifier::rlimit(60)]
proof fn lemma_entries_unterminated(entries: Seq<(Seq<u8>, SValue)>, acc: Seq<(Seq<u8>, SValue)>)
    requires
        forall|i: int| 0 <= i < entries.len() ==> well_formed(#[trigger] entries[i].1),
    ensures
        parse_entries(encode_entries(entries), acc) is None,
    decreases entries.len(),
{
    if entries.len() > 0 {
        let k = entries[0].0;
        let v = entries[0].1;
        let tail = entries.drop_first();
        let after = encode_entries(tail);
        lemma_encode_entries_front(entries);
        let s = encode_entries(entries);
        assert(s =~= encode_bytes(k) + (encode_value(v) + after));
        lemma_parse_bytes_encode(k, encode_value(v) + after);
        let n1 = encode_bytes(k).len() as int;
        assert(s[0] == encode_bytes(k)[0]);
        lemma_parse_encode(v, after);
        let n2 = encode_value(v).len() as int;
        assert(s.subrange(n1, s.len() as int) =~= encode_value(v) + after);
        assert(s.subrange(n1 + n2, s.len() as int) =~= after);
        assert forall|i: int| 0 <= i < tail.len() implies well_formed(#[trigger] tail[i].1) by {
            assert(tail[i] == entries[i + 1]);
        }
        lemma_entries_unterminated(tail, dict_insert(acc, k, v));
    }
}

/// Inputs that stop short fail to decode: a byte string with fewer bytes
/// than its length prefix declares, a length prefix that runs to the end
/// or into anything but a colon, an integer without its terminator, and a
/// list or dictionary of well-formed values without its terminator.
pub proof fn truncated_inputs_fail(
    n: nat,
    c: Seq<u8>,
    d: Seq<u8>,
    x: u8,
    negative: bool,
    items: Seq<SValue>,
    entries: Seq<(Seq<u8>, SValue)>,
)
    requires
        c.len() < n,
        d.len() > 0,
        forall|i: int| 0 <= i < d.len() ==> is_digit(#[trigger] d[i]),
        x != COLON && !is_digit(x),
        forall|i: int| 0 <= i < items.len() ==> well_formed(#[trigger] items[i]),
        forall|i: int| 0 <= i < entries.len() ==> well_formed(#[trigger] entries[i].1),
    ensures
        decode_spec(decimal(n) + seq![COLON] + c) is None,
        decode_spec(d) is None,
        decode_spec(d + seq![x]) is None,
        decode_spec(seq![INT_START] + (if negative { seq![MINUS] } else { Seq::empty() }) + d) is None,
        decode_spec(seq![LIST_START] + encode_items(items)) is None,
        decode_spec(seq![DICT_START] + encode_entries(entries)) is None,
{
    lemma_decimal(n);
    let s1 = decimal(n) + seq![COLON] + c;
    let m = decimal(n).len() as int;
    assert forall|j: int| 0 <= j < m implies is_digit(#[trigger] s1[j]) by {
        assert(s1[j] == decimal(n)[j]);
    }
    lemma_digit_run(s1, m);
    assert(s1.subrange(0, m) =~= decimal(n));
    lemma_digit_run(d, d.len() as int);
    let s3 = d + seq![x];
    assert forall|j: int| 0 <= j < d.len() implies is_digit(#[trigger] s3[j]) by {
        assert(s3[j] == d[j]);
    }
    lemma_digit_run(s3, d.len() as int);
    let s4 = seq![INT_START] + (if negative { seq![MINUS] } else { Seq::<u8>::empty() }) + d;
    let start: int = if negative { 2 } else { 1 };
    assert(s4.subrange(start, s4.len() as int) =~= d);
    if !negative {
        assert(s4[1] == d[0]);
    }
    let s5 = seq![LIST_START] + encode_items(items);
    assert(s5.drop_first() =~= encode_items(items));
    lemma_items_unterminated(items);
    let s6 = seq![DICT_START] + encode_entries(entries);
    assert(s6.drop_first() =~= encode_entries(entries));
    lemma_entries_unterminated(entries, Seq::empty());
}

/// An integer written with a leading zero, or as negative zero, fails to decode.
pub proof fn leading_zero_fails(negative: bool, d: Seq<u8>)
    requires
        d.len() > 0,
        d[0] == ZERO,
        forall|i: int| 0 <= i < d.len() ==> is_digit(#[trigger] d[i]),
        d.len() > 1 || negative,
    ensures
        decode_spec(seq![INT_START] + (if negative { seq![MINUS] } else { Seq::empty() }) + d + seq![END]) is None,
{
    let s = seq![INT_START] + (if negative { seq![MINUS] } else { Seq::<u8>::empty() }) + d + seq![END];
    let start: int = if negative { 2 } else { 1 };
    let tail = s.subrange(start, s.len() as int);
    assert forall|j: int| 0 <= j < d.len() implies is_digit(#[trigger] tail[j]) by {
        assert(tail[j] == d[j]);
    }
    assert(tail[d.len() as int] == END);
    lemma_digit_run(tail, d.len() as int);
    assert(s.subrange(start, start + d.len()) =~= d);
    if !negative {
        assert(s[1] == d[0]);
    }
}

} // verus!
