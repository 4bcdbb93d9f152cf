//! The bencoding of a flat dictionary of numbers and byte strings.
use serde_bencode::value::Value;
use std::collections::HashMap;
use vstd::prelude::*;

verus! {

/// `n` in decimal digits, in ASCII.
pub open spec fn decimal(n: nat) -> Seq<u8>
    decreases n,
{
    if n < 10 {
        seq![('0' as int + n) as u8]
    } else {
        decimal(n / 10).push(('0' as int + n % 10) as u8)
    }
}

/// A number: its digits, with a sign where it is negative, between `i` and `e`.
pub open spec fn bencode_int(n: int) -> Seq<u8> {
    let digits = if n < 0 {
        seq!['-' as u8] + decimal((-n) as nat)
    } else {
        decimal(n as nat)
    };
    seq!['i' as u8] + digits + seq!['e' as u8]
}

/// A byte string: its length, a colon and the bytes.
pub open spec fn bencode_bytes(s: Seq<u8>) -> Seq<u8> {
    decimal(s.len()) + seq![':' as u8] + s
}

/// A value of a flat dictionary.
pub enum BencodeItem {
    Int(i64),
    Bytes(Vec<u8>),
}

/// What a value of a flat dictionary stands for.
#[verifier::ext_equal]
pub enum ItemView {
    Int(i64),
    Bytes(Seq<u8>),
}

impl View for BencodeItem {
    type V = ItemView;

    open spec fn view(&self) -> ItemView {
        match self {
            BencodeItem::Int(n) => ItemView::Int(*n),
            BencodeItem::Bytes(b) => ItemView::Bytes(b@),
        }
    }
}

/// The bencoding of one value.
pub open spec fn bencode_item(item: ItemView) -> Seq<u8> {
    match item {
        ItemView::Int(n) => bencode_int(n as int),
        ItemView::Bytes(s) => bencode_bytes(s),
    }
}

/// Each key followed by its value, in the order of `entries`.
pub open spec fn bencode_entries(entries: Seq<(Seq<u8>, ItemView)>) -> Seq<u8>
    decreases entries.len(),
{
    if entries.len() == 0 {
        Seq::empty()
    } else {
        bencode_entries(entries.drop_last()) + bencode_bytes(entries.last().0) + bencode_item(
            entries.last().1,
        )
    }
}

/// A dictionary: its entries between `d` and `e`.
pub open spec fn bencode_dict(entries: Seq<(Seq<u8>, ItemView)>) -> Seq<u8> {
    seq!['d' as u8] + bencode_entries(entries) + seq!['e' as u8]
}

/// Whether `a` comes before `b` in the order of byte strings: at the first
/// place where they differ `a` has ended or has the smaller byte.
pub open spec fn comes_before(a: Seq<u8>, b: Seq<u8>) -> bool {
    exists|k: int| #[trigger] differ_at(a, b, k)
}

/// Whether `k` is the first place where `a` and `b` differ, and `a` has ended
/// there or has the smaller byte.
pub open spec fn differ_at(a: Seq<u8>, b: Seq<u8>, k: int) -> bool {
    &&& 0 <= k <= a.len()
    &&& k < b.len()
    &&& a.take(k) == b.take(k)
    &&& k < a.len() ==> a[k] < b[k]
}

/// Whether the keys of `entries` come in ascending order, each one once.
pub open spec fn keys_ascend(entries: Seq<(Seq<u8>, ItemView)>) -> bool {
    forall|i: int, j: int|
        0 <= i < j < entries.len() ==> comes_before(entries[i].0, entries[j].0)
}

/// The keys and values that `entries` stand for.
pub open spec fn entries_view(entries: Seq<(Vec<u8>, BencodeItem)>) -> Seq<
    (Seq<u8>, ItemView),
> {
    entries.map_values(|e: (Vec<u8>, BencodeItem)| (e.0@, e.1@))
}

/// `serde_bencode::to_bytes` of a `Value::Dict`: the bencoding of the
/// dictionary, with its keys in ascending order. Of values that are numbers and
/// byte strings it fails on none.
#[verifier::external_body]
pub(crate) fn bencode_to_bytes(entries: Vec<(Vec<u8>, BencodeItem)>) -> (r: Vec<u8>)
    requires
        keys_ascend(entries_view(entries@)),
        bencode_dict(entries_view(entries@)).len() <= isize::MAX,
    ensures
        r@ == bencode_dict(entries_view(entries@)),
{
    let to_value = |item: BencodeItem| match item {
        BencodeItem::Int(n) => Value::Int(n),
        BencodeItem::Bytes(b) => Value::Bytes(b),
    };
    let dict: HashMap<Vec<u8>, Value> = entries
        .into_iter()
        .map(|entry| (entry.0, to_value(entry.1)))
        .collect();
    serde_bencode::to_bytes(&Value::Dict(dict)).unwrap()
}

/// The number of decimal digits of `n`.
fn decimal_len(n: u64) -> (r: u64)
    ensures
        r == decimal(n as nat).len(),
        r <= n + 1,
    decreases n,
{
    if n < 10 {
        1
    } else {
        decimal_len(n / 10) + 1
    }
}

/// The number of bytes in the bencoding of `n`.
pub(crate) fn int_size(n: i64) -> (r: u128)
    ensures
        r == bencode_int(n as int).len(),
        r <= 0x1_0000_0000_0000_0000,
{
    if n < 0 {
        3 + decimal_len((-(n as i128)) as u64) as u128
    } else {
        2 + decimal_len(n as u64) as u128
    }
}

/// The number of bytes in the bencoding of `s`.
pub(crate) fn bytes_size(s: &[u8]) -> (r: u128)
    ensures
        r == bencode_bytes(s@).len(),
        r <= 0x3_0000_0000_0000_0000,
{
    let len = s.len();
    decimal_len(len as u64) as u128 + 1 + len as u128
}

/// What one more entry adds to the bencoding of `entries`.
pub proof fn lemma_entries_grow(
    entries: Seq<(Seq<u8>, ItemView)>,
    key: Seq<u8>,
    item: ItemView,
)
    ensures
        bencode_entries(entries.push((key, item))).len() == bencode_entries(entries).len()
            + bencode_bytes(key).len() + bencode_item(item).len(),
{
    assert(entries.push((key, item)).drop_last() =~= entries);
}

proof fn lemma_order_is_strict(a: Seq<u8>, b: Seq<u8>)
    requires
        comes_before(a, b),
    ensures
        a != b,
        !comes_before(b, a),
{
    let j = choose|k: int| #[trigger] differ_at(a, b, k);
    if a == b {
        assert(a[j] == b[j]);
    }
    if comes_before(b, a) {
        let k = choose|k: int| #[trigger] differ_at(b, a, k);
        if j < k {
            assert(a.take(k)[j] == b.take(k)[j]);
        } else if k < j {
            assert(a.take(j)[k] == b.take(j)[k]);
        }
    }
}

/// In ascending order each key stands once.
pub proof fn lemma_each_key_stands_once(
    entries: Seq<(Seq<u8>, ItemView)>,
    i: int,
    j: int,
)
    requires
        keys_ascend(entries),
        0 <= i < entries.len(),
        0 <= j < entries.len(),
        entries[i].0 == entries[j].0,
    ensures
        i == j,
{
    if i < j {
        lemma_order_is_strict(entries[i].0, entries[j].0);
    }
    if j < i {
        lemma_order_is_strict(entries[j].0, entries[i].0);
    }
}

/// There is one ascending order: dictionaries in it that hold the same entries are the
/// same.
pub proof fn law_ascending_order_is_unique(
    a: Seq<(Seq<u8>, ItemView)>,
    b: Seq<(Seq<u8>, ItemView)>,
)
    requires
        keys_ascend(a),
        keys_ascend(b),
        forall|i: int| 0 <= i < a.len() ==> b.contains(#[trigger] a[i]),
        forall|j: int| 0 <= j < b.len() ==> a.contains(#[trigger] b[j]),
    ensures
        a == b,
    decreases a.len(),
{
    if a.len() == 0 {
        if b.len() > 0 {
            assert(a.contains(b[0]));
        }
        assert(a =~= b);
    } else {
        let (m, n) = (a.len() - 1, b.len() - 1);
        assert(b.contains(a[m]));
        assert(a.contains(b[n]));
        let j = choose|j: int| 0 <= j < b.len() && b[j] == a[m];
        let i = choose|i: int| 0 <= i < a.len() && a[i] == b[n];
        if i < m && j < n {
            lemma_order_is_strict(a[i].0, a[m].0);
            lemma_order_is_strict(b[j].0, b[n].0);
        }
        assert(a[m] == b[n]);
        let (less_a, less_b) = (a.drop_last(), b.drop_last());
        assert forall|i: int| 0 <= i < less_a.len() implies less_b.contains(
            #[trigger] less_a[i],
        ) by {
            assert(b.contains(a[i]));
            let j = choose|j: int| 0 <= j < b.len() && b[j] == a[i];
            lemma_order_is_strict(a[i].0, a[m].0);
            assert(less_b[j] == a[i]);
        }
        assert forall|j: int| 0 <= j < less_b.len() implies less_a.contains(
            #[trigger] less_b[j],
        ) by {
            assert(a.contains(b[j]));
            let i = choose|i: int| 0 <= i < a.len() && a[i] == b[j];
            lemma_order_is_strict(b[j].0, b[n].0);
            assert(less_a[i] == b[j]);
        }
        law_ascending_order_is_unique(less_a, less_b);
        assert(a =~= less_a.push(a[m]));
        assert(b =~= less_b.push(b[n]));
    }
}

/// Whether `s` is made of decimal digits.
pub open spec fn all_digits(s: Seq<u8>) -> bool {
    forall|i: int| 0 <= i < s.len() ==> '0' as int <= #[trigger] s[i] <= '9' as int
}

/// The number that decimal digits spell.
pub open spec fn digits_value(s: Seq<u8>) -> int
    decreases s.len(),
{
    if s.len() == 0 {
        0
    } else {
        digits_value(s.drop_last()) * 10 + (s.last() - '0' as int)
    }
}

pub(crate) proof fn lemma_decimal(n: nat)
    ensures
        decimal(n).len() > 0,
        all_digits(decimal(n)),
        digits_value(decimal(n)) == n,
    decreases n,
{
    reveal_with_fuel(digits_value, 2);
    if n >= 10 {
        lemma_decimal(n / 10);
        assert(decimal(n).drop_last() =~= decimal(n / 10));
    } else {
        assert(decimal(n).drop_last() =~= Seq::empty());
    }
}

/// Digits end where the first byte stands that is none: they and what follows
/// them can be told apart.
proof fn lemma_digits_end(a: Seq<u8>, x: Seq<u8>, b: Seq<u8>, y: Seq<u8>)
    requires
        all_digits(a),
        all_digits(b),
        x.len() > 0,
        y.len() > 0,
        !('0' as int <= x[0] <= '9' as int),
        !('0' as int <= y[0] <= '9' as int),
        a + x == b + y,
    ensures
        a == b,
        x == y,
{
    let s = a + x;
    assert(s == b + y);
    if a.len() < b.len() {
        assert(s[a.len() as int] == x[0]);
        assert(s[a.len() as int] == b[a.len() as int]);
    }
    if b.len() < a.len() {
        assert(s[b.len() as int] == y[0]);
        assert(s[b.len() as int] == a[b.len() as int]);
    }
    assert(a =~= s.take(a.len() as int));
    assert(b =~= s.take(b.len() as int));
    assert(x =~= s.skip(a.len() as int));
    assert(y =~= s.skip(b.len() as int));
}

proof fn lemma_bytes_end(a: Seq<u8>, x: Seq<u8>, b: Seq<u8>, y: Seq<u8>)
    requires
        bencode_bytes(a) + x == bencode_bytes(b) + y,
    ensures
        a == b,
        x == y,
{
    lemma_decimal(a.len());
    lemma_decimal(b.len());
    let colon = seq![':' as u8];
    assert(decimal(a.len()) + (colon + a + x) =~= bencode_bytes(a) + x);
    assert(decimal(b.len()) + (colon + b + y) =~= bencode_bytes(b) + y);
    lemma_digits_end(decimal(a.len()), colon + a + x, decimal(b.len()), colon + b + y);
    let s = colon + a + x;
    assert(s == colon + b + y);
    assert(a =~= s.subrange(1, 1 + a.len() as int));
    assert(b =~= s.subrange(1, 1 + b.len() as int));
    assert(x =~= s.skip(1 + a.len() as int));
    assert(y =~= s.skip(1 + b.len() as int));
}

proof fn lemma_number_ends(a: nat, x: Seq<u8>, b: nat, y: Seq<u8>)
    requires
        decimal(a) + seq!['e' as u8] + x == decimal(b) + seq!['e' as u8] + y,
    ensures
        a == b,
        x == y,
{
    lemma_decimal(a);
    lemma_decimal(b);
    let e = seq!['e' as u8];
    assert(decimal(a) + (e + x) =~= decimal(a) + e + x);
    assert(decimal(b) + (e + y) =~= decimal(b) + e + y);
    lemma_digits_end(decimal(a), e + x, decimal(b), e + y);
    assert(x =~= (e + x).skip(1));
    assert(y =~= (e + y).skip(1));
}

proof fn lemma_int_ends(a: int, x: Seq<u8>, b: int, y: Seq<u8>)
    requires
        bencode_int(a) + x == bencode_int(b) + y,
    ensures
        a == b,
        x == y,
{
    let s = bencode_int(a) + x;
    assert(s == bencode_int(b) + y);
    let e = seq!['e' as u8];
    let (m, n) = (if a < 0 {
        (-a) as nat
    } else {
        a as nat
    }, if b < 0 {
        (-b) as nat
    } else {
        b as nat
    });
    lemma_decimal(m);
    lemma_decimal(n);
    if a < 0 {
        assert(s[1] == '-' as u8);
        assert(s.skip(2) =~= decimal(m) + e + x);
    } else {
        assert(s[1] == decimal(m)[0]);
        assert(s.skip(1) =~= decimal(m) + e + x);
    }
    if b < 0 {
        assert(s[1] == '-' as u8);
        assert(s.skip(2) =~= decimal(n) + e + y);
    } else {
        assert(s[1] == decimal(n)[0]);
        assert(s.skip(1) =~= decimal(n) + e + y);
    }
    lemma_number_ends(m, x, n, y);
}

proof fn lemma_item_ends(a: ItemView, x: Seq<u8>, b: ItemView, y: Seq<u8>)
    requires
        bencode_item(a) + x == bencode_item(b) + y,
    ensures
        a == b,
        x == y,
{
    let s = bencode_item(a) + x;
    assert(s == bencode_item(b) + y);
    match (a, b) {
        (ItemView::Int(m), ItemView::Int(n)) => {
            lemma_int_ends(m as int, x, n as int, y);
        },
        (ItemView::Bytes(m), ItemView::Bytes(n)) => {
            lemma_bytes_end(m, x, n, y);
        },
        (ItemView::Int(m), ItemView::Bytes(n)) => {
            lemma_decimal(n.len());
            assert(s[0] == 'i' as u8);
            assert(s[0] == decimal(n.len())[0]);
        },
        (ItemView::Bytes(m), ItemView::Int(n)) => {
            lemma_decimal(m.len());
            assert(s[0] == decimal(m.len())[0]);
            assert(s[0] == 'i' as u8);
        },
    }
}

proof fn lemma_entries_from_front(entries: Seq<(Seq<u8>, ItemView)>)
    requires
        entries.len() > 0,
    ensures
        bencode_entries(entries) == bencode_bytes(entries[0].0) + bencode_item(entries[0].1)
            + bencode_entries(entries.skip(1)),
    decreases entries.len(),
{
    let rest = entries.skip(1);
    if entries.len() == 1 {
        reveal_with_fuel(bencode_entries, 2);
        assert(entries.drop_last() =~= Seq::empty());
        assert(rest =~= Seq::empty());
        assert(bencode_entries(entries) =~= bencode_bytes(entries[0].0) + bencode_item(
            entries[0].1,
        ) + bencode_entries(rest));
    } else {
        let init = entries.drop_last();
        lemma_entries_from_front(init);
        assert(init.skip(1) =~= rest.drop_last());
        assert(rest.last() == entries.last());
        assert(bencode_entries(entries) =~= bencode_bytes(entries[0].0) + bencode_item(
            entries[0].1,
        ) + bencode_entries(rest));
    }
}

proof fn lemma_entries_are_told_apart(
    a: Seq<(Seq<u8>, ItemView)>,
    b: Seq<(Seq<u8>, ItemView)>,
)
    requires
        bencode_entries(a) + seq!['e' as u8] == bencode_entries(b) + seq!['e' as u8],
    ensures
        a == b,
    decreases a.len(),
{
    let e = seq!['e' as u8];
    let s = bencode_entries(a) + e;
    assert(s == bencode_entries(b) + e);
    if a.len() > 0 {
        lemma_entries_from_front(a);
        lemma_decimal(a[0].0.len());
        assert(s[0] == decimal(a[0].0.len())[0]);
    } else {
        assert(s[0] == 'e' as u8);
    }
    if b.len() > 0 {
        lemma_entries_from_front(b);
        lemma_decimal(b[0].0.len());
        assert(s[0] == decimal(b[0].0.len())[0]);
    } else {
        assert(s[0] == 'e' as u8);
    }
    if a.len() > 0 && b.len() > 0 {
        let x = bencode_entries(a.skip(1)) + e;
        let y = bencode_entries(b.skip(1)) + e;
        assert(s =~= bencode_bytes(a[0].0) + (bencode_item(a[0].1) + x));
        assert(s =~= bencode_bytes(b[0].0) + (bencode_item(b[0].1) + y));
        lemma_bytes_end(a[0].0, bencode_item(a[0].1) + x, b[0].0, bencode_item(b[0].1) + y);
        lemma_item_ends(a[0].1, x, b[0].1, y);
        lemma_entries_are_told_apart(a.skip(1), b.skip(1));
        assert(a =~= seq![a[0]] + a.skip(1));
        assert(b =~= seq![b[0]] + b.skip(1));
    } else {
        assert(a =~= b);
    }
}

/// Different dictionaries have different bencodings.
pub proof fn law_dictionaries_are_told_apart(
    a: Seq<(Seq<u8>, ItemView)>,
    b: Seq<(Seq<u8>, ItemView)>,
)
    requires
        bencode_dict(a) == bencode_dict(b),
    ensures
        a == b,
{
    let e = seq!['e' as u8];
    assert(bencode_dict(a).skip(1) =~= bencode_entries(a) + e);
    assert(bencode_dict(b).skip(1) =~= bencode_entries(b) + e);
    lemma_entries_are_told_apart(a, b);
}

} // verus!
