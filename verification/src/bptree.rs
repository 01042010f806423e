//! The B+-tree index: an ordered map from key values to rows, with
//! size-driven leaf splits and count-driven internal splits.
//!
//! Nodes own their children. An internal node holds `keys` and `children`
//! with one more child than keys; conceptually entry `i` is the triple
//! `(keys[i], children[i], children[i + 1])`, so adjacent triples share the
//! middle subtree by construction. Every key stored below `children[i]` is
//! smaller than `keys[i]`, every key below `children[i + 1]` is at least
//! `keys[i]`, and each separator equals the smallest key of its right
//! subtree.
use vstd::prelude::*;

use crate::codec::{enc_row, enc_value, valid_model, valid_row};
use crate::value::{val_le, val_lt, TableValue, ValueModel};
use crate::ErrorKind;

verus! {

/// Mathematical model of a tree entry: a key and its row.
pub struct EntryModel {
    pub key: ValueModel,
    pub value: Seq<ValueModel>,
}

/// A key/row pair stored in a leaf.
#[derive(Debug, Clone, PartialEq)]
pub struct Entry {
    pub key: TableValue,
    pub value: Vec<TableValue>,
}

impl View for Entry {
    type V = EntryModel;

    open spec fn view(&self) -> EntryModel {
        EntryModel { key: self.key@, value: self.value.deep_view() }
    }
}

impl DeepView for Entry {
    type V = EntryModel;

    open spec fn deep_view(&self) -> EntryModel {
        self.view()
    }
}

impl Entry {
    /// Builds an entry from a key and a row.
    pub fn new(key: TableValue, value: Vec<TableValue>) -> (e: Entry)
        ensures
            e@.key == key@,
            e@.value == value.deep_view(),
    {
        Entry { key, value }
    }

    /// Exact copy of the entry; the copy has the same model.
    pub fn dup(&self) -> (e: Entry)
        ensures
            e@ == self@,
    {
        Entry { key: self.key.dup(), value: crate::value::row_dup(&self.value) }
    }
}

/// An entry the codec can represent.
pub open spec fn valid_entry(e: EntryModel) -> bool {
    valid_model(e.key) && valid_row(e.value)
}

/// Byte encoding of one entry: the key, then the row.
pub open spec fn enc_entry(e: EntryModel) -> Seq<u8> {
    enc_value(e.key) + enc_row(e.value)
}

/// Concatenated encodings of a sequence of entries.
pub open spec fn enc_entries(es: Seq<EntryModel>) -> Seq<u8>
    decreases es.len(),
{
    if es.len() == 0 {
        Seq::empty()
    } else {
        enc_entry(es[0]) + enc_entries(es.drop_first())
    }
}

/// The codec strategy the tree measures its leaves with. The mock reports
/// one byte per entry and exists for deterministic structure tests.
#[derive(Debug, Clone)]
pub enum Serializer {
    MessagePack,
    Mock,
}

/// Number of bytes `serialize` produces for the entries.
pub open spec fn ser_len(s: Serializer, es: Seq<EntryModel>) -> int {
    match s {
        Serializer::Mock => es.len() as int,
        Serializer::MessagePack => enc_entries(es).len() as int,
    }
}

/// Appending an entry extends the encoding of an entry sequence.
pub proof fn lemma_enc_entries_push(es: Seq<EntryModel>, e: EntryModel)
    ensures
        enc_entries(es.push(e)) == enc_entries(es) + enc_entry(e),
    decreases es.len(),
{
    if es.len() == 0 {
        assert(es.push(e).drop_first() =~= Seq::<EntryModel>::empty());
        assert(enc_entries(es.push(e).drop_first()) == Seq::<u8>::empty());
        assert(es =~= Seq::<EntryModel>::empty());
        assert(enc_entries(es) == Seq::<u8>::empty());
        assert(enc_entries(es.push(e)) =~= enc_entry(e));
        assert(enc_entries(es) + enc_entry(e) =~= enc_entry(e));
    } else {
        assert(es.push(e).drop_first() =~= es.drop_first().push(e));
        lemma_enc_entries_push(es.drop_first(), e);
        assert(enc_entries(es.push(e)) =~= enc_entries(es) + enc_entry(e));
    }
}

impl Serializer {
    /// Serializes the entries: the mock yields one `1` byte per entry,
    /// the production codec exactly the concatenated encodings.
    pub fn serialize(&self, entries: &Vec<Entry>) -> (out: Vec<u8>)
        requires
            forall|i: int| 0 <= i < entries.len() ==> valid_entry(#[trigger] entries.deep_view()[i]),
        ensures
            out@.len() == ser_len(*self, entries.deep_view()),
            self is MessagePack ==> out@ == enc_entries(entries.deep_view()),
            self is Mock ==> forall|i: int| 0 <= i < out@.len() ==> out@[i] == 1u8,
    {
        let ghost dv = entries.deep_view();
        match self {
            Serializer::Mock => {
                let mut out: Vec<u8> = Vec::new();
                let mut i: usize = 0;
                while i < entries.len()
                    invariant
                        i <= entries.len(),
                        out@.len() == i,
                        forall|j: int| 0 <= j < i ==> out@[j] == 1u8,
                    decreases entries.len() - i,
                {
                    out.push(1u8);
                    i = i + 1;
                }
                out
            },
            Serializer::MessagePack => {
                let mut out: Vec<u8> = Vec::new();
                let n = entries.len();
                let mut i: usize = 0;
                while i < n
                    invariant
                        i <= n,
                        n == entries.len(),
                        dv == entries.deep_view(),
                        forall|j: int| 0 <= j < n ==> valid_entry(#[trigger] dv[j]),
                        out@ =~= enc_entries(dv.subrange(0, i as int)),
                    decreases n - i,
                {
                    proof {
                        assert(dv[i as int] == entries@[i as int]@);
                        assert(valid_entry(dv[i as int]));
                    }
                    crate::codec::encode_value_into(&mut out, &entries[i].key);
                    crate::codec::encode_row_into(&mut out, &entries[i].value);
                    proof {
                        lemma_enc_entries_push(dv.subrange(0, i as int), dv[i as int]);
                        assert(dv.subrange(0, i + 1) =~= dv.subrange(0, i as int).push(
                            dv[i as int],
                        ));
                        assert(out@ =~= enc_entries(dv.subrange(0, i + 1)));
                    }
                    i = i + 1;
                }
                proof {
                    assert(dv.subrange(0, n as int) =~= dv);
                }
                out
            },
        }
    }
}

/// The entries are strictly sorted by key.
pub open spec fn sorted_entries(es: Seq<EntryModel>) -> bool {
    forall|i: int, j: int| 0 <= i < j < es.len() ==> val_lt(#[trigger] es[i].key, #[trigger] es[j].key)
}

/// Some entry carries the key.
pub open spec fn contains_key(es: Seq<EntryModel>, k: ValueModel) -> bool {
    exists|i: int| 0 <= i < es.len() && (#[trigger] es[i].key) == k
}

/// Every entry's key is strictly below `k`.
pub open spec fn all_keys_lt(es: Seq<EntryModel>, k: ValueModel) -> bool {
    forall|i: int| 0 <= i < es.len() ==> val_lt(#[trigger] es[i].key, k)
}

/// Every entry's key is at least `k`.
pub open spec fn all_keys_ge(es: Seq<EntryModel>, k: ValueModel) -> bool {
    forall|i: int| 0 <= i < es.len() ==> val_le(k, #[trigger] es[i].key)
}

/// All entries of the sequence are codec-representable.
pub open spec fn all_entries_valid(es: Seq<EntryModel>) -> bool {
    forall|i: int| 0 <= i < es.len() ==> valid_entry(#[trigger] es[i])
}

/// The entries with `e` placed before the first strictly larger key.
pub open spec fn sorted_insert(es: Seq<EntryModel>, e: EntryModel) -> Seq<EntryModel>
    decreases es.len(),
{
    if es.len() == 0 {
        seq![e]
    } else if val_lt(e.key, es[0].key) {
        seq![e] + es
    } else {
        seq![es[0]] + sorted_insert(es.drop_first(), e)
    }
}

/// What `sorted_insert` does: it keeps the entries sorted, adds exactly the
/// new key, grows the length by one, and every element is either `e` or one
/// of the old entries.
pub proof fn lemma_sorted_insert(es: Seq<EntryModel>, e: EntryModel)
    requires
        sorted_entries(es),
        !contains_key(es, e.key),
    ensures
        sorted_entries(sorted_insert(es, e)),
        sorted_insert(es, e).len() == es.len() + 1,
        forall|k: ValueModel| contains_key(sorted_insert(es, e), k) <==> (contains_key(es, k) || k
            == e.key),
        forall|j: int| 0 <= j < sorted_insert(es, e).len() ==> (#[trigger] sorted_insert(es, e)[j]
            == e || exists|i: int| 0 <= i < es.len() && es[i] == sorted_insert(es, e)[j]),
        all_entries_valid(es) && valid_entry(e) ==> all_entries_valid(sorted_insert(es, e)),
    decreases es.len(),
{
    let r = sorted_insert(es, e);
    if es.len() == 0 {
        assert forall|k: ValueModel| contains_key(r, k) implies (contains_key(es, k) || k
            == e.key) by {
            let i = choose|i: int| 0 <= i < r.len() && r[i].key == k;
            assert(r[i] == e);
        }
        assert(contains_key(r, e.key)) by {
            assert(r[0].key == e.key);
        }
    } else if val_lt(e.key, es[0].key) {
        assert(r =~= seq![e] + es);
        assert forall|i: int, j: int| 0 <= i < j < r.len() implies val_lt(
            #[trigger] r[i].key,
            #[trigger] r[j].key,
        ) by {
            if i == 0 {
                if j > 1 {
                    crate::value::lemma_val_lt_transitive(e.key, es[0].key, es[j - 1].key);
                }
            }
        }
        assert forall|k: ValueModel| contains_key(r, k) implies (contains_key(es, k) || k
            == e.key) by {
            let i = choose|i: int| 0 <= i < r.len() && r[i].key == k;
            if i > 0 {
                assert(es[i - 1].key == k);
            }
        }
        assert(contains_key(r, e.key)) by {
            assert(r[0].key == e.key);
        }
        assert forall|k: ValueModel| contains_key(es, k) implies contains_key(r, k) by {
            let i = choose|i: int| 0 <= i < es.len() && es[i].key == k;
            assert(r[i + 1].key == k);
        }
    } else {
        crate::value::lemma_val_lt_trichotomy(e.key, es[0].key);
        assert(es[0].key != e.key) by {
            assert(es[0].key == es[0].key);
        }
        let tail = es.drop_first();
        assert(!contains_key(tail, e.key)) by {
            if contains_key(tail, e.key) {
                let i = choose|i: int| 0 <= i < tail.len() && tail[i].key == e.key;
                assert(es[i + 1].key == e.key);
            }
        }
        assert(sorted_entries(tail)) by {
            assert forall|i: int, j: int| 0 <= i < j < tail.len() implies val_lt(
                #[trigger] tail[i].key,
                #[trigger] tail[j].key,
            ) by {
                assert(tail[i] == es[i + 1] && tail[j] == es[j + 1]);
            }
        }
        lemma_sorted_insert(tail, e);
        let rt = sorted_insert(tail, e);
        assert(r =~= seq![es[0]] + rt);
        assert(val_lt(es[0].key, e.key));
        assert forall|i: int, j: int| 0 <= i < j < r.len() implies val_lt(
            #[trigger] r[i].key,
            #[trigger] r[j].key,
        ) by {
            if i == 0 {
                assert(r[j] == rt[j - 1]);
                if rt[j - 1] == e {
                } else {
                    let t = choose|t: int| 0 <= t < tail.len() && tail[t] == rt[j - 1];
                    assert(es[t + 1] == rt[j - 1]);
                }
            } else {
                assert(r[i] == rt[i - 1] && r[j] == rt[j - 1]);
            }
        }
        assert forall|k: ValueModel| contains_key(r, k) implies (contains_key(es, k) || k
            == e.key) by {
            let i = choose|i: int| 0 <= i < r.len() && r[i].key == k;
            if i == 0 {
                assert(es[0].key == k);
            } else {
                assert(rt[i - 1].key == k);
                assert(contains_key(rt, k));
                if contains_key(tail, k) {
                    let t = choose|t: int| 0 <= t < tail.len() && tail[t].key == k;
                    assert(es[t + 1].key == k);
                }
            }
        }
        assert(contains_key(r, e.key)) by {
            assert(contains_key(rt, e.key));
            let t = choose|t: int| 0 <= t < rt.len() && rt[t].key == e.key;
            assert(r[t + 1].key == e.key);
        }
        assert forall|k: ValueModel| contains_key(es, k) implies contains_key(r, k) by {
            let i = choose|i: int| 0 <= i < es.len() && es[i].key == k;
            if i == 0 {
                assert(r[0].key == k);
            } else {
                assert(contains_key(tail, k)) by {
                    assert(tail[i - 1].key == k);
                }
                assert(contains_key(rt, k));
                let t = choose|t: int| 0 <= t < rt.len() && rt[t].key == k;
                assert(r[t + 1].key == k);
            }
        }
        assert forall|j: int| 0 <= j < r.len() implies (#[trigger] r[j] == e || exists|i: int|
            0 <= i < es.len() && es[i] == r[j]) by {
            if j == 0 {
                assert(es[0] == r[0]);
            } else {
                if rt[j - 1] == e {
                } else {
                    let t = choose|t: int| 0 <= t < tail.len() && tail[t] == rt[j - 1];
                    assert(es[t + 1] == r[j]);
                }
            }
        }
    }
}

/// Splitting a sorted sequence keeps both halves sorted, with every key of
/// the left half strictly below every key of the right half.
pub proof fn lemma_sorted_split(es: Seq<EntryModel>, mid: int)
    requires
        sorted_entries(es),
        0 <= mid <= es.len(),
    ensures
        sorted_entries(es.subrange(0, mid)),
        sorted_entries(es.subrange(mid, es.len() as int)),
        mid < es.len() ==> all_keys_lt(es.subrange(0, mid), es[mid].key),
        mid < es.len() ==> all_keys_ge(es.subrange(mid, es.len() as int), es[mid].key),
{
    let a = es.subrange(0, mid);
    let b = es.subrange(mid, es.len() as int);
    assert forall|i: int, j: int| 0 <= i < j < a.len() implies val_lt(
        #[trigger] a[i].key,
        #[trigger] a[j].key,
    ) by {
        assert(a[i] == es[i] && a[j] == es[j]);
    }
    assert forall|i: int, j: int| 0 <= i < j < b.len() implies val_lt(
        #[trigger] b[i].key,
        #[trigger] b[j].key,
    ) by {
        assert(b[i] == es[mid + i] && b[j] == es[mid + j]);
    }
    if mid < es.len() {
        assert forall|i: int| 0 <= i < a.len() implies val_lt(#[trigger] a[i].key, es[mid].key) by {
            assert(a[i] == es[i]);
        }
        assert forall|i: int| 0 <= i < b.len() implies val_le(es[mid].key, #[trigger] b[i].key) by {
            assert(b[i] == es[mid + i]);
        }
    }
}

/// Two sorted runs with all left keys strictly below all right keys
/// concatenate to a sorted run.
pub proof fn lemma_sorted_concat(a: Seq<EntryModel>, b: Seq<EntryModel>)
    requires
        sorted_entries(a),
        sorted_entries(b),
        forall|i: int, j: int| 0 <= i < a.len() && 0 <= j < b.len() ==> val_lt(
            (#[trigger] a[i]).key,
            (#[trigger] b[j]).key,
        ),
    ensures
        sorted_entries(a + b),
{
    let c = a + b;
    assert forall|i: int, j: int| 0 <= i < j < c.len() implies val_lt(
        #[trigger] c[i].key,
        #[trigger] c[j].key,
    ) by {
        if i < a.len() && j < a.len() {
            assert(c[i] == a[i] && c[j] == a[j]);
        } else if i < a.len() {
            assert(c[i] == a[i] && c[j] == b[j - a.len()]);
        } else {
            assert(c[i] == b[i - a.len()] && c[j] == b[j - a.len()]);
        }
    }
}

/// A key is in a concatenation exactly when it is in one of the parts.
pub proof fn lemma_contains_concat(a: Seq<EntryModel>, b: Seq<EntryModel>, k: ValueModel)
    ensures
        contains_key(a + b, k) <==> (contains_key(a, k) || contains_key(b, k)),
{
    let c = a + b;
    if contains_key(c, k) {
        let i = choose|i: int| 0 <= i < c.len() && c[i].key == k;
        if i < a.len() {
            assert(a[i].key == k);
        } else {
            assert(b[i - a.len()].key == k);
        }
    }
    if contains_key(a, k) {
        let i = choose|i: int| 0 <= i < a.len() && a[i].key == k;
        assert(c[i].key == k);
    }
    if contains_key(b, k) {
        let i = choose|i: int| 0 <= i < b.len() && b[i].key == k;
        assert(c[a.len() + i].key == k);
    }
}

/// Inserting into the middle piece of a three-way split of a sequence, when
/// the new key lies strictly between the outer pieces, inserts into the
/// whole.
pub proof fn lemma_sorted_insert_mid(
    a: Seq<EntryModel>,
    b: Seq<EntryModel>,
    c: Seq<EntryModel>,
    e: EntryModel,
)
    requires
        all_keys_lt(a, e.key),
        all_keys_ge(c, e.key),
        !contains_key(c, e.key),
    ensures
        sorted_insert(a + b + c, e) == a + sorted_insert(b, e) + c,
    decreases a.len() + b.len(),
{
    if a.len() != 0 {
        assert(val_lt(a[0].key, e.key));
        let abc = a + b + c;
        assert(abc[0] == a[0]);
        crate::value::lemma_val_lt_trichotomy(e.key, a[0].key);
        assert(!val_lt(e.key, abc[0].key));
        assert(abc.len() != 0);
        assert(abc.drop_first() =~= a.drop_first() + b + c);
        assert(all_keys_lt(a.drop_first(), e.key)) by {
            assert forall|i: int| 0 <= i < a.drop_first().len() implies val_lt(
                (#[trigger] a.drop_first()[i]).key,
                e.key,
            ) by {
                assert(a.drop_first()[i] == a[i + 1]);
            }
        }
        lemma_sorted_insert_mid(a.drop_first(), b, c, e);
        assert(sorted_insert(abc, e) =~= a + sorted_insert(b, e) + c);
    } else if b.len() != 0 {
        let abc = a + b + c;
        assert(abc =~= b + c);
        assert(abc[0] == b[0]);
        if val_lt(e.key, b[0].key) {
            assert(sorted_insert(abc, e) =~= seq![e] + abc);
            assert(sorted_insert(b, e) =~= seq![e] + b);
            assert(seq![e] + abc =~= a + (seq![e] + b) + c);
        } else {
            assert(abc.drop_first() =~= b.drop_first() + c);
            assert(Seq::<EntryModel>::empty() + b.drop_first() + c =~= b.drop_first() + c);
            lemma_sorted_insert_mid(Seq::empty(), b.drop_first(), c, e);
            assert(sorted_insert(b.drop_first() + c, e) == Seq::<EntryModel>::empty()
                + sorted_insert(b.drop_first(), e) + c);
            assert(sorted_insert(abc, e) =~= seq![b[0]] + sorted_insert(b.drop_first() + c, e));
            assert(sorted_insert(b, e) =~= seq![b[0]] + sorted_insert(b.drop_first(), e));
            assert(sorted_insert(abc, e) =~= a + sorted_insert(b, e) + c);
        }
    } else {
        let abc = a + b + c;
        assert(abc =~= c);
        assert(sorted_insert(b, e) =~= seq![e]);
        if c.len() == 0 {
            assert(sorted_insert(abc, e) =~= a + sorted_insert(b, e) + c);
        } else {
            assert(val_le(e.key, c[0].key));
            assert(c[0].key != e.key) by {
                assert(contains_key(c, e.key) <== c[0].key == e.key) by {
                    if c[0].key == e.key {
                        assert(0 <= 0 < c.len() && c[0].key == e.key);
                    }
                }
            }
            assert(val_lt(e.key, c[0].key));
            assert(sorted_insert(abc, e) =~= seq![e] + c);
            assert(seq![e] + c =~= a + sorted_insert(b, e) + c);
        }
    }
}


/// A leaf: the sorted entries it stores.
#[derive(Debug)]
pub struct LeafNode {
    pub entries: Vec<Entry>,
}

/// An internal node: separator keys and one more child than keys.
#[derive(Debug)]
pub struct InternalNode {
    pub keys: Vec<TableValue>,
    pub children: Vec<BPTreeNode>,
}

/// A node of the tree.
#[derive(Debug)]
pub enum BPTreeNode {
    Leaf(LeafNode),
    Internal(InternalNode),
}

/// All entries stored below the node, in order.
pub open spec fn entries_of(n: BPTreeNode) -> Seq<EntryModel>
    decreases n,
{
    match n {
        BPTreeNode::Leaf(l) => l.entries.deep_view(),
        BPTreeNode::Internal(node) => children_entries(node.children@),
    }
}

/// All entries stored below a run of children, in order.
pub open spec fn children_entries(cs: Seq<BPTreeNode>) -> Seq<EntryModel>
    decreases cs,
{
    if cs.len() == 0 {
        Seq::empty()
    } else {
        entries_of(cs[0]) + children_entries(cs.drop_first())
    }
}

/// Well-formedness of every node in a run of children.
pub open spec fn children_wf(cs: Seq<BPTreeNode>) -> bool
    decreases cs,
{
    if cs.len() == 0 {
        true
    } else {
        node_wf(cs[0]) && children_wf(cs.drop_first())
    }
}

/// Well-formedness of a node.
///
/// A leaf holds sorted, codec-representable entries. An internal node has
/// one more child than keys; every child but possibly the leftmost is
/// non-empty; keys below `children[c]` are strictly below `keys[c]`; keys
/// below `children[c + 1]` are at least `keys[c]`; and each separator equals
/// the smallest key of its right subtree.
pub open spec fn node_wf(n: BPTreeNode) -> bool
    decreases n,
{
    match n {
        BPTreeNode::Leaf(l) => sorted_entries(l.entries.deep_view()) && all_entries_valid(
            l.entries.deep_view(),
        ),
        BPTreeNode::Internal(node) => {
            let ks = node.keys.deep_view();
            let cs = node.children@;
            &&& node.keys.len() >= 1
            &&& node.children.len() == node.keys.len() + 1
            &&& children_wf(cs)
            &&& forall|c: int| 1 <= c < cs.len() ==> entries_of(#[trigger] cs[c]).len() >= 1
            &&& forall|c: int| 0 <= c < ks.len() ==> all_keys_lt(entries_of(#[trigger] cs[c]), ks[c])
            &&& forall|c: int| 0 <= c < ks.len() ==> all_keys_ge(
                entries_of(#[trigger] cs[c + 1]),
                ks[c],
            )
            &&& forall|c: int| 0 <= c < ks.len() ==> #[trigger] ks[c] == entries_of(cs[c + 1])[0].key
        },
    }
}

/// Non-strict order chains with the strict one.
pub proof fn lemma_val_le_lt_trans(a: ValueModel, b: ValueModel, c: ValueModel)
    requires
        val_le(a, b),
        val_lt(b, c),
    ensures
        val_lt(a, c),
{
    if a != b {
        crate::value::lemma_val_lt_transitive(a, b, c);
    }
}

/// The strict order chains with the non-strict one.
pub proof fn lemma_val_lt_le_trans(a: ValueModel, b: ValueModel, c: ValueModel)
    requires
        val_lt(a, b),
        val_le(b, c),
    ensures
        val_lt(a, c),
{
    if b != c {
        crate::value::lemma_val_lt_transitive(a, b, c);
    }
}

/// Every node of a well-formed child run is well-formed.
pub proof fn lemma_children_wf_index(cs: Seq<BPTreeNode>, c: int)
    requires
        children_wf(cs),
        0 <= c < cs.len(),
    ensures
        node_wf(cs[c]),
    decreases cs.len(),
{
    if c > 0 {
        lemma_children_wf_index(cs.drop_first(), c - 1);
        assert(cs.drop_first()[c - 1] == cs[c]);
    }
}

/// A run of children whose nodes are all well-formed is well-formed.
pub proof fn lemma_children_wf_build(cs: Seq<BPTreeNode>)
    requires
        forall|c: int| 0 <= c < cs.len() ==> node_wf(#[trigger] cs[c]),
    ensures
        children_wf(cs),
    decreases cs.len(),
{
    if cs.len() != 0 {
        assert forall|c: int| 0 <= c < cs.drop_first().len() implies node_wf(
            #[trigger] cs.drop_first()[c],
        ) by {
            assert(cs.drop_first()[c] == cs[c + 1]);
        }
        lemma_children_wf_build(cs.drop_first());
    }
}

/// The flattened entries of a child run split at any child.
pub proof fn lemma_children_entries_split(cs: Seq<BPTreeNode>, c: int)
    requires
        0 <= c < cs.len(),
    ensures
        children_entries(cs) == children_entries(cs.subrange(0, c)) + entries_of(cs[c])
            + children_entries(cs.subrange(c + 1, cs.len() as int)),
    decreases c,
{
    if c == 0 {
        assert(cs.subrange(0, 0) =~= Seq::<BPTreeNode>::empty());
        assert(children_entries(cs.subrange(0, 0)) == Seq::<EntryModel>::empty());
        assert(cs.subrange(1, cs.len() as int) =~= cs.drop_first());
        assert(children_entries(cs) =~= children_entries(cs.subrange(0, 0)) + entries_of(cs[0])
            + children_entries(cs.subrange(1, cs.len() as int)));
    } else {
        let t = cs.drop_first();
        lemma_children_entries_split(t, c - 1);
        assert(t[c - 1] == cs[c]);
        assert(t.subrange(0, c - 1) =~= cs.subrange(1, c));
        assert(t.subrange(c, t.len() as int) =~= cs.subrange(c + 1, cs.len() as int));
        assert(cs.subrange(0, c).drop_first() =~= cs.subrange(1, c));
        assert(cs.subrange(0, c)[0] == cs[0]);
        assert(children_entries(cs.subrange(0, c)) =~= entries_of(cs[0]) + children_entries(
            cs.subrange(1, c),
        ));
        assert(children_entries(cs) =~= children_entries(cs.subrange(0, c)) + entries_of(cs[c])
            + children_entries(cs.subrange(c + 1, cs.len() as int)));
    }
}

/// Generalized sortedness of a child run under its separators: the
/// flattened entries are sorted and valid, and everything right of the
/// first child is at least the first separator.
pub proof fn lemma_children_sorted(cs: Seq<BPTreeNode>, ks: Seq<ValueModel>)
    requires
        cs.len() == ks.len() + 1,
        children_wf(cs),
        forall|c: int| 1 <= c < cs.len() ==> entries_of(#[trigger] cs[c]).len() >= 1,
        forall|c: int| 0 <= c < ks.len() ==> all_keys_lt(entries_of(#[trigger] cs[c]), ks[c]),
        forall|c: int| 0 <= c < ks.len() ==> all_keys_ge(entries_of(#[trigger] cs[c + 1]), ks[c]),
        forall|c: int| 0 <= c < ks.len() ==> #[trigger] ks[c] == entries_of(cs[c + 1])[0].key,
    ensures
        sorted_entries(children_entries(cs)),
        all_entries_valid(children_entries(cs)),
        ks.len() >= 1 ==> all_keys_ge(
            children_entries(cs.subrange(1, cs.len() as int)),
            ks[0],
        ),
    decreases cs,
{
    lemma_children_wf_index(cs, 0);
    lemma_node_sorted(cs[0]);
    if ks.len() == 0 {
        assert(cs.drop_first() =~= Seq::<BPTreeNode>::empty());
        assert(children_entries(cs.drop_first()) == Seq::<EntryModel>::empty());
        assert(children_entries(cs) =~= entries_of(cs[0]) + children_entries(cs.drop_first()));
        assert(children_entries(cs) =~= entries_of(cs[0]));
    } else {
        let rest = cs.drop_first();
        let krest = ks.drop_first();
        assert(rest.len() == krest.len() + 1);
        assert forall|c: int| 1 <= c < rest.len() implies entries_of(#[trigger] rest[c]).len()
            >= 1 by {
            assert(rest[c] == cs[c + 1]);
        }
        assert forall|c: int| 0 <= c < krest.len() implies all_keys_lt(
            entries_of(#[trigger] rest[c]),
            krest[c],
        ) by {
            assert(rest[c] == cs[c + 1] && krest[c] == ks[c + 1]);
        }
        assert forall|c: int| 0 <= c < krest.len() implies all_keys_ge(
            entries_of(#[trigger] rest[c + 1]),
            krest[c],
        ) by {
            assert(rest[c + 1] == cs[c + 2] && krest[c] == ks[c + 1]);
        }
        assert forall|c: int| 0 <= c < krest.len() implies #[trigger] krest[c] == entries_of(
            rest[c + 1],
        )[0].key by {
            assert(rest[c + 1] == cs[c + 2] && krest[c] == ks[c + 1]);
        }
        lemma_children_sorted(rest, krest);
        // Everything in the rest is at least ks[0].
        assert(all_keys_ge(children_entries(rest), ks[0])) by {
            let r0 = entries_of(rest[0]);
            let rr = children_entries(rest.subrange(1, rest.len() as int));
            lemma_children_entries_split(rest, 0);
            assert(rest.subrange(0, 0) =~= Seq::<BPTreeNode>::empty());
            assert(children_entries(rest.subrange(0, 0)) == Seq::<EntryModel>::empty());
            assert(children_entries(rest) =~= r0 + rr);
            assert(rest[0] == cs[1]);
            assert(all_keys_ge(r0, ks[0]));
            if krest.len() >= 1 {
                assert(all_keys_ge(rr, ks[1]));
                assert(val_le(ks[0], ks[1])) by {
                    assert(val_le(ks[0], entries_of(cs[1])[0].key));
                    assert(val_lt(entries_of(cs[1])[0].key, ks[1]));
                    lemma_val_le_lt_trans(ks[0], entries_of(cs[1])[0].key, ks[1]);
                }
                assert forall|i: int| 0 <= i < rr.len() implies val_le(
                    ks[0],
                    (#[trigger] rr[i]).key,
                ) by {
                    if ks[0] != ks[1] {
                        lemma_val_lt_le_trans(ks[0], ks[1], rr[i].key);
                    }
                }
            } else {
                assert(rest.subrange(1, rest.len() as int) =~= Seq::<BPTreeNode>::empty());
                assert(children_entries(rest.subrange(1, rest.len() as int))
                    == Seq::<EntryModel>::empty());
            }
            assert forall|i: int| 0 <= i < children_entries(rest).len() implies val_le(
                ks[0],
                (#[trigger] children_entries(rest)[i]).key,
            ) by {
                if i < r0.len() {
                    assert(children_entries(rest)[i] == r0[i]);
                } else {
                    assert(children_entries(rest)[i] == rr[i - r0.len()]);
                }
            }
        }
        assert(children_entries(cs) =~= entries_of(cs[0]) + children_entries(rest));
        assert forall|i: int, j: int|
            0 <= i < entries_of(cs[0]).len() && 0 <= j < children_entries(rest).len() implies
            val_lt((#[trigger] entries_of(cs[0])[i]).key, (#[trigger] children_entries(rest)[j]).key)
        by {
            assert(val_lt(entries_of(cs[0])[i].key, ks[0]));
            assert(val_le(ks[0], children_entries(rest)[j].key));
            crate::value::lemma_val_lt_trichotomy(entries_of(cs[0])[i].key, ks[0]);
            if ks[0] != children_entries(rest)[j].key {
                crate::value::lemma_val_lt_transitive(
                    entries_of(cs[0])[i].key,
                    ks[0],
                    children_entries(rest)[j].key,
                );
            }
        }
        lemma_sorted_concat(entries_of(cs[0]), children_entries(rest));
        assert(all_entries_valid(children_entries(cs))) by {
            assert forall|i: int| 0 <= i < children_entries(cs).len() implies valid_entry(
                #[trigger] children_entries(cs)[i],
            ) by {
                if i < entries_of(cs[0]).len() {
                    assert(children_entries(cs)[i] == entries_of(cs[0])[i]);
                } else {
                    assert(children_entries(cs)[i] == children_entries(rest)[i - entries_of(
                        cs[0],
                    ).len()]);
                }
            }
        }
        assert(cs.subrange(1, cs.len() as int) =~= rest);
    }
}

/// A well-formed node stores sorted, codec-representable entries.
pub proof fn lemma_node_sorted(n: BPTreeNode)
    requires
        node_wf(n),
    ensures
        sorted_entries(entries_of(n)),
        all_entries_valid(entries_of(n)),
    decreases n,
{
    match n {
        BPTreeNode::Leaf(_) => {},
        BPTreeNode::Internal(node) => {
            lemma_children_sorted(node.children@, node.keys.deep_view());
        },
    }
}


/// The keys of the entries, in order.
pub open spec fn keys_of(es: Seq<EntryModel>) -> Seq<ValueModel> {
    Seq::new(es.len(), |i: int| es[i].key)
}

/// Sorted insertion at the insertion point: if everything before `ip` is
/// strictly below the new key and everything from `ip` on strictly above,
/// the insertion places the entry exactly at `ip`.
pub proof fn lemma_sorted_insert_at(es: Seq<EntryModel>, e: EntryModel, ip: int)
    requires
        0 <= ip <= es.len(),
        forall|i: int| 0 <= i < ip ==> val_lt((#[trigger] es[i]).key, e.key),
        forall|i: int| ip <= i < es.len() ==> val_lt(e.key, (#[trigger] es[i]).key),
    ensures
        sorted_insert(es, e) == es.subrange(0, ip) + seq![e] + es.subrange(ip, es.len() as int),
    decreases ip,
{
    if ip == 0 {
        if es.len() == 0 {
            assert(sorted_insert(es, e) =~= es.subrange(0, 0) + seq![e] + es.subrange(
                0,
                es.len() as int,
            ));
        } else {
            assert(val_lt(e.key, es[0].key));
            assert(sorted_insert(es, e) =~= es.subrange(0, 0) + seq![e] + es.subrange(
                0,
                es.len() as int,
            ));
        }
    } else {
        assert(val_lt(es[0].key, e.key));
        crate::value::lemma_val_lt_trichotomy(e.key, es[0].key);
        let t = es.drop_first();
        assert forall|i: int| 0 <= i < ip - 1 implies val_lt((#[trigger] t[i]).key, e.key) by {
            assert(t[i] == es[i + 1]);
        }
        assert forall|i: int| ip - 1 <= i < t.len() implies val_lt(e.key, (#[trigger] t[i]).key) by {
            assert(t[i] == es[i + 1]);
        }
        lemma_sorted_insert_at(t, e, ip - 1);
        assert(t.subrange(0, ip - 1) =~= es.subrange(1, ip));
        assert(t.subrange(ip - 1, t.len() as int) =~= es.subrange(ip, es.len() as int));
        assert(sorted_insert(es, e) =~= es.subrange(0, ip) + seq![e] + es.subrange(
            ip,
            es.len() as int,
        ));
    }
}

/// Finds a key among sorted entries: either the index holding it, or the
/// insertion point, before which all keys are smaller and from which on all
/// keys are larger.
fn leaf_search(entries: &Vec<Entry>, key: &TableValue) -> (r: (bool, usize))
    requires
        sorted_entries(entries.deep_view()),
    ensures
        r.0 == contains_key(entries.deep_view(), key@),
        r.0 ==> r.1 < entries.len() && entries.deep_view()[r.1 as int].key == key@,
        !r.0 ==> {
            &&& r.1 <= entries.len()
            &&& forall|i: int| 0 <= i < r.1 ==> val_lt(
                (#[trigger] entries.deep_view()[i]).key,
                key@,
            )
            &&& forall|i: int| r.1 <= i < entries.len() ==> val_lt(
                key@,
                (#[trigger] entries.deep_view()[i]).key,
            )
        },
{
    let ghost dv = entries.deep_view();
    let n = entries.len();
    let mut i: usize = 0;
    while i < n
        invariant
            i <= n,
            n == entries.len(),
            dv == entries.deep_view(),
            sorted_entries(dv),
            forall|j: int| 0 <= j < i ==> val_lt((#[trigger] dv[j]).key, key@),
        decreases n - i,
    {
        proof {
            assert(dv[i as int] == entries@[i as int]@);
        }
        let o = crate::value::value_cmp(&entries[i].key, key);
        match o {
            core::cmp::Ordering::Less => {
                i = i + 1;
            },
            core::cmp::Ordering::Equal => {
                proof {
                    assert(dv[i as int].key == key@);
                }
                return (true, i);
            },
            core::cmp::Ordering::Greater => {
                proof {
                    assert(val_lt(key@, dv[i as int].key));
                    assert forall|j: int| i <= j < n implies val_lt(
                        key@,
                        (#[trigger] dv[j]).key,
                    ) by {
                        if j > i {
                            crate::value::lemma_val_lt_transitive(key@, dv[i as int].key, dv[j].key);
                        }
                    }
                    assert(!contains_key(dv, key@)) by {
                        if contains_key(dv, key@) {
                            let t = choose|t: int| 0 <= t < dv.len() && dv[t].key == key@;
                            crate::value::lemma_val_lt_trichotomy(dv[t].key, key@);
                        }
                    }
                }
                return (false, i);
            },
        }
    }
    proof {
        assert(!contains_key(dv, key@)) by {
            if contains_key(dv, key@) {
                let t = choose|t: int| 0 <= t < dv.len() && dv[t].key == key@;
                crate::value::lemma_val_lt_trichotomy(dv[t].key, key@);
            }
        }
    }
    (false, n)
}

/// Whether a leaf is well-formed.
pub open spec fn leaf_wf(l: LeafNode) -> bool {
    sorted_entries(l.entries.deep_view()) && all_entries_valid(l.entries.deep_view())
}

impl LeafNode {
    /// An empty leaf.
    pub fn new() -> (l: LeafNode)
        ensures
            l.entries.deep_view() == Seq::<EntryModel>::empty(),
            leaf_wf(l),
    {
        let l = LeafNode { entries: Vec::new() };
        proof {
            assert(l.entries.deep_view() =~= Seq::<EntryModel>::empty());
        }
        l
    }

    /// A leaf holding one entry.
    pub fn new_from_entry(entry: Entry) -> (l: LeafNode)
        ensures
            l.entries.deep_view() =~= seq![entry@],
            valid_entry(entry@) ==> leaf_wf(l),
    {
        let mut entries: Vec<Entry> = Vec::new();
        entries.push(entry);
        let l = LeafNode { entries };
        proof {
            assert(l.entries.deep_view() =~= seq![entry@]);
        }
        l
    }

    /// The smallest key of a non-empty leaf.
    pub fn left_key(&self) -> (k: TableValue)
        requires
            self.entries.len() > 0,
        ensures
            k@ == self.entries.deep_view()[0].key,
    {
        self.entries[0].key.dup()
    }

    /// The largest key of a non-empty leaf.
    pub fn right_key(&self) -> (k: TableValue)
        requires
            self.entries.len() > 0,
        ensures
            k@ == self.entries.deep_view()[self.entries.len() - 1].key,
    {
        self.entries[self.entries.len() - 1].key.dup()
    }

    /// The keys of the leaf, in order.
    pub fn keys(&self) -> (ks: Vec<TableValue>)
        ensures
            ks.deep_view() == keys_of(self.entries.deep_view()),
    {
        let mut ks: Vec<TableValue> = Vec::new();
        let n = self.entries.len();
        let mut i: usize = 0;
        while i < n
            invariant
                i <= n,
                n == self.entries.len(),
                ks.len() == i,
                forall|j: int| 0 <= j < i ==> (#[trigger] ks@[j])@ == self.entries.deep_view()[j].key,
            decreases n - i,
        {
            let k = self.entries[i].key.dup();
            let ghost kv = k@;
            proof {
                assert(self.entries.deep_view()[i as int] == self.entries@[i as int]@);
            }
            ks.push(k);
            proof {
                assert(ks@[i as int]@ == kv);
            }
            i = i + 1;
        }
        proof {
            assert forall|j: int| 0 <= j < ks.deep_view().len() implies ks.deep_view()[j]
                == keys_of(self.entries.deep_view())[j] by {
                assert(ks.deep_view()[j] == ks@[j]@);
            }
            assert(ks.deep_view() =~= keys_of(self.entries.deep_view()));
        }
        ks
    }

    /// Inserts an entry. Fails exactly when the key is already present,
    /// leaving the leaf unchanged. Otherwise the entry goes to its sorted
    /// position; if the serialized size then reaches `page_byte_size`, the
    /// upper half moves to a new right sibling which is returned.
    pub fn insert(
        &mut self,
        entry: Entry,
        page_byte_size: usize,
        serializer: &Serializer,
    ) -> (r: Result<Option<LeafNode>, ErrorKind>)
        requires
            leaf_wf(*old(self)),
            valid_entry(entry@),
        ensures
            match r {
                Err(err) => {
                    &&& contains_key(old(self).entries.deep_view(), entry@.key)
                    &&& final(self).entries.deep_view() == old(self).entries.deep_view()
                    &&& (err matches ErrorKind::DuplicateKey(k) && k@ == entry@.key)
                },
                Ok(split) => {
                    let ns = sorted_insert(old(self).entries.deep_view(), entry@);
                    &&& !contains_key(old(self).entries.deep_view(), entry@.key)
                    &&& leaf_wf(*final(self))
                    &&& match split {
                        None => {
                            &&& final(self).entries.deep_view() == ns
                            &&& ser_len(*serializer, ns) < page_byte_size
                        },
                        Some(right) => {
                            &&& ser_len(*serializer, ns) >= page_byte_size
                            &&& final(self).entries.deep_view() == ns.subrange(
                                0,
                                ns.len() as int / 2,
                            )
                            &&& right.entries.deep_view() == ns.subrange(
                                ns.len() as int / 2,
                                ns.len() as int,
                            )
                            &&& leaf_wf(right)
                            &&& right.entries.len() >= 1
                            &&& all_keys_lt(
                                final(self).entries.deep_view(),
                                right.entries.deep_view()[0].key,
                            )
                            &&& all_keys_ge(
                                right.entries.deep_view(),
                                right.entries.deep_view()[0].key,
                            )
                        },
                    }
                },
            },
    {
        let ghost old_dv = self.entries.deep_view();
        let (found, idx) = leaf_search(&self.entries, &entry.key);
        if found {
            return Err(ErrorKind::DuplicateKey(entry.key));
        }
        let ghost ev = entry@;
        proof {
            lemma_sorted_insert_at(old_dv, ev, idx as int);
            lemma_sorted_insert(old_dv, ev);
        }
        self.entries.insert(idx, entry);
        let ghost ns = sorted_insert(old_dv, ev);
        proof {
            assert(self.entries.deep_view() =~= ns);
        }
        let buf = serializer.serialize(&self.entries);
        if buf.len() >= page_byte_size {
            let mid = self.entries.len() / 2;
            proof {
                lemma_sorted_split(ns, mid as int);
            }
            let right_entries = self.entries.split_off(mid);
            let right = LeafNode { entries: right_entries };
            proof {
                assert(self.entries.deep_view() =~= ns.subrange(0, mid as int));
                assert(right.entries.deep_view() =~= ns.subrange(mid as int, ns.len() as int));
                assert forall|i: int| 0 <= i < self.entries.deep_view().len() implies valid_entry(
                    #[trigger] self.entries.deep_view()[i],
                ) by {
                    assert(self.entries.deep_view()[i] == ns[i]);
                }
                assert forall|i: int| 0 <= i < right.entries.deep_view().len() implies valid_entry(
                    #[trigger] right.entries.deep_view()[i],
                ) by {
                    assert(right.entries.deep_view()[i] == ns[mid + i]);
                }
                assert(right.entries.deep_view()[0].key == ns[mid as int].key);
            }
            Ok(Some(right))
        } else {
            Ok(None)
        }
    }
}


/// Every entry's key is strictly above `k`.
pub open spec fn all_keys_gt(es: Seq<EntryModel>, k: ValueModel) -> bool {
    forall|i: int| 0 <= i < es.len() ==> val_lt(k, (#[trigger] es[i]).key)
}

/// Whether an internal node is well-formed.
pub open spec fn internal_wf(node: InternalNode) -> bool {
    node_wf(BPTreeNode::Internal(node))
}

/// All entries stored below an internal node.
pub open spec fn internal_entries(node: InternalNode) -> Seq<EntryModel> {
    children_entries(node.children@)
}

/// Strictly sorted key sequence.
pub open spec fn sorted_keys(ks: Seq<ValueModel>) -> bool {
    forall|i: int, j: int| 0 <= i < j < ks.len() ==> val_lt(#[trigger] ks[i], #[trigger] ks[j])
}

/// Adjacent strict order over a run of keys extends along the run.
proof fn lemma_lt_chain(ks: Seq<ValueModel>, i: int, j: int)
    requires
        forall|c: int| 0 <= c && c + 1 < ks.len() ==> val_lt(#[trigger] ks[c], ks[c + 1]),
        0 <= i < j < ks.len(),
    ensures
        val_lt(ks[i], ks[j]),
    decreases j - i,
{
    if j == i + 1 {
    } else {
        lemma_lt_chain(ks, i, j - 1);
        crate::value::lemma_val_lt_transitive(ks[i], ks[j - 1], ks[j]);
    }
}

/// The separators of a well-formed internal node are strictly sorted.
pub proof fn lemma_wf_keys_sorted(node: InternalNode)
    requires
        internal_wf(node),
    ensures
        sorted_keys(node.keys.deep_view()),
{
    let ks = node.keys.deep_view();
    let cs = node.children@;
    assert forall|c: int| 0 <= c && c + 1 < ks.len() implies val_lt(
        #[trigger] ks[c],
        ks[c + 1],
    ) by {
        assert(ks[c] == entries_of(cs[c + 1])[0].key);
        assert(entries_of(cs[c + 1]).len() >= 1);
        assert(val_lt(entries_of(cs[c + 1])[0].key, ks[c + 1]));
    }
    assert forall|i: int, j: int| 0 <= i < j < ks.len() implies val_lt(
        #[trigger] ks[i],
        #[trigger] ks[j],
    ) by {
        lemma_lt_chain(ks, i, j);
    }
}

/// If each child's entries are strictly below `k`, so is the flattening.
proof fn lemma_ce_all_lt(cs: Seq<BPTreeNode>, k: ValueModel)
    requires
        forall|c: int| 0 <= c < cs.len() ==> all_keys_lt(entries_of(#[trigger] cs[c]), k),
    ensures
        all_keys_lt(children_entries(cs), k),
    decreases cs.len(),
{
    if cs.len() != 0 {
        assert forall|c: int| 0 <= c < cs.drop_first().len() implies all_keys_lt(
            entries_of(#[trigger] cs.drop_first()[c]),
            k,
        ) by {
            assert(cs.drop_first()[c] == cs[c + 1]);
        }
        lemma_ce_all_lt(cs.drop_first(), k);
        let ce = children_entries(cs);
        assert forall|i: int| 0 <= i < ce.len() implies val_lt((#[trigger] ce[i]).key, k) by {
            if i < entries_of(cs[0]).len() {
                assert(ce[i] == entries_of(cs[0])[i]);
            } else {
                assert(ce[i] == children_entries(cs.drop_first())[i - entries_of(cs[0]).len()]);
            }
        }
    }
}

/// If each child's entries are strictly above `k`, so is the flattening.
proof fn lemma_ce_all_gt(cs: Seq<BPTreeNode>, k: ValueModel)
    requires
        forall|c: int| 0 <= c < cs.len() ==> all_keys_gt(entries_of(#[trigger] cs[c]), k),
    ensures
        all_keys_gt(children_entries(cs), k),
    decreases cs.len(),
{
    if cs.len() != 0 {
        assert forall|c: int| 0 <= c < cs.drop_first().len() implies all_keys_gt(
            entries_of(#[trigger] cs.drop_first()[c]),
            k,
        ) by {
            assert(cs.drop_first()[c] == cs[c + 1]);
        }
        lemma_ce_all_gt(cs.drop_first(), k);
        let ce = children_entries(cs);
        assert forall|i: int| 0 <= i < ce.len() implies val_lt(k, (#[trigger] ce[i]).key) by {
            if i < entries_of(cs[0]).len() {
                assert(ce[i] == entries_of(cs[0])[i]);
            } else {
                assert(ce[i] == children_entries(cs.drop_first())[i - entries_of(cs[0]).len()]);
            }
        }
    }
}

/// The flattened entries of a child run split at any prefix boundary.
proof fn lemma_ce_cat(cs: Seq<BPTreeNode>, p: int)
    requires
        0 <= p <= cs.len(),
    ensures
        children_entries(cs) == children_entries(cs.subrange(0, p)) + children_entries(
            cs.subrange(p, cs.len() as int),
        ),
    decreases p,
{
    if p == 0 {
        assert(cs.subrange(0, 0) =~= Seq::<BPTreeNode>::empty());
        assert(children_entries(cs.subrange(0, 0)) == Seq::<EntryModel>::empty());
        assert(cs.subrange(0, cs.len() as int) =~= cs);
        assert(children_entries(cs) =~= children_entries(cs.subrange(0, 0)) + children_entries(
            cs.subrange(0, cs.len() as int),
        ));
    } else {
        let t = cs.drop_first();
        lemma_ce_cat(t, p - 1);
        assert(t.subrange(0, p - 1) =~= cs.subrange(1, p));
        assert(t.subrange(p - 1, t.len() as int) =~= cs.subrange(p, cs.len() as int));
        assert(cs.subrange(0, p).drop_first() =~= cs.subrange(1, p));
        assert(cs.subrange(0, p)[0] == cs[0]);
        assert(children_entries(cs.subrange(0, p)) =~= entries_of(cs[0]) + children_entries(
            cs.subrange(1, p),
        ));
        assert(children_entries(cs) =~= children_entries(cs.subrange(0, p)) + children_entries(
            cs.subrange(p, cs.len() as int),
        ));
    }
}

/// Inserting a key strictly above the smallest entry keeps the smallest
/// entry first.
proof fn lemma_sorted_insert_first(es: Seq<EntryModel>, e: EntryModel)
    requires
        es.len() >= 1,
        val_lt(es[0].key, e.key),
    ensures
        sorted_insert(es, e).len() >= 1,
        sorted_insert(es, e)[0] == es[0],
{
    crate::value::lemma_val_lt_trichotomy(e.key, es[0].key);
}


/// If each child's entries are at least `k`, so is the flattening.
proof fn lemma_ce_all_ge(cs: Seq<BPTreeNode>, k: ValueModel)
    requires
        forall|c: int| 0 <= c < cs.len() ==> all_keys_ge(entries_of(#[trigger] cs[c]), k),
    ensures
        all_keys_ge(children_entries(cs), k),
    decreases cs.len(),
{
    if cs.len() != 0 {
        assert forall|c: int| 0 <= c < cs.drop_first().len() implies all_keys_ge(
            entries_of(#[trigger] cs.drop_first()[c]),
            k,
        ) by {
            assert(cs.drop_first()[c] == cs[c + 1]);
        }
        lemma_ce_all_ge(cs.drop_first(), k);
        let ce = children_entries(cs);
        assert forall|i: int| 0 <= i < ce.len() implies val_le(k, (#[trigger] ce[i]).key) by {
            if i < entries_of(cs[0]).len() {
                assert(ce[i] == entries_of(cs[0])[i]);
            } else {
                assert(ce[i] == children_entries(cs.drop_first())[i - entries_of(cs[0]).len()]);
            }
        }
    }
}

/// The outcome of a successful insert that split a node: the two parts
/// carry the inserted sequence, the separator is the smallest key of the
/// right part, and the parts are strictly ordered around it.
pub open spec fn split_ok(
    old_es: Seq<EntryModel>,
    e: EntryModel,
    left: Seq<EntryModel>,
    sep: ValueModel,
    right: Seq<EntryModel>,
) -> bool {
    &&& left + right == sorted_insert(old_es, e)
    &&& right.len() >= 1
    &&& sep == right[0].key
    &&& all_keys_lt(left, sep)
    &&& all_keys_ge(right, sep)
    &&& (old_es.len() >= 1 ==> left.len() >= 1)
}

/// Finds a key among sorted separators: either the index holding it, or
/// the routing index, before which all separators are smaller and from
/// which on all separators are larger.
fn key_search(keys: &Vec<TableValue>, key: &TableValue) -> (r: (bool, usize))
    requires
        sorted_keys(keys.deep_view()),
    ensures
        r.0 ==> r.1 < keys.len() && keys.deep_view()[r.1 as int] == key@,
        !r.0 ==> {
            &&& r.1 <= keys.len()
            &&& forall|i: int| 0 <= i < r.1 ==> val_lt(#[trigger] keys.deep_view()[i], key@)
            &&& forall|i: int| r.1 <= i < keys.len() ==> val_lt(key@, #[trigger] keys.deep_view()[i])
        },
{
    let ghost dv = keys.deep_view();
    let n = keys.len();
    let mut i: usize = 0;
    while i < n
        invariant
            i <= n,
            n == keys.len(),
            dv == keys.deep_view(),
            sorted_keys(dv),
            forall|j: int| 0 <= j < i ==> val_lt(#[trigger] dv[j], key@),
        decreases n - i,
    {
        proof {
            assert(dv[i as int] == keys@[i as int]@);
        }
        let o = crate::value::value_cmp(&keys[i], key);
        match o {
            core::cmp::Ordering::Less => {
                i = i + 1;
            },
            core::cmp::Ordering::Equal => {
                return (true, i);
            },
            core::cmp::Ordering::Greater => {
                proof {
                    assert forall|j: int| i <= j < n implies val_lt(key@, #[trigger] dv[j]) by {
                        if j > i {
                            crate::value::lemma_val_lt_transitive(key@, dv[i as int], dv[j]);
                        }
                    }
                }
                return (false, i);
            },
        }
    }
    (false, n)
}

/// What a node insert does, relating the node before and after to the
/// entry and the result; a split hands back a sibling of the same kind
/// whose smallest key is the returned separator.
pub open spec fn node_insert_effect(
    n0: BPTreeNode,
    n1: BPTreeNode,
    ev: EntryModel,
    r: Result<Option<(TableValue, BPTreeNode)>, ErrorKind>,
) -> bool {
    match r {
        Err(err) => {
            &&& node_wf(n1)
            &&& entries_of(n1) == entries_of(n0)
            &&& contains_key(entries_of(n0), ev.key)
            &&& (err matches ErrorKind::DuplicateKey(k) && k@ == ev.key)
        },
        Ok(split) => {
            &&& !contains_key(entries_of(n0), ev.key)
            &&& node_wf(n1)
            &&& (n1 is Leaf <==> n0 is Leaf)
            &&& match split {
                None => entries_of(n1) == sorted_insert(entries_of(n0), ev),
                Some((sep, right)) => {
                    &&& node_wf(right)
                    &&& (right is Leaf <==> n0 is Leaf)
                    &&& split_ok(entries_of(n0), ev, entries_of(n1), sep@, entries_of(right))
                },
            }
        },
    }
}

impl BPTreeNode {
    /// Inserts an entry below this node. Fails exactly when the key is
    /// already present, leaving the stored entries unchanged. On success
    /// the entry takes its sorted position; if the node had to split, the
    /// new right sibling and its smallest key are returned.
    pub fn insert(
        &mut self,
        entry: Entry,
        degree: usize,
        page_byte_size: usize,
        serializer: &Serializer,
    ) -> (r: Result<Option<(TableValue, BPTreeNode)>, ErrorKind>)
        requires
            node_wf(*old(self)),
            valid_entry(entry@),
        ensures
            node_insert_effect(*old(self), *final(self), entry@, r),
            match r {
                Err(err) => {
                    &&& node_wf(*final(self))
                    &&& entries_of(*final(self)) == entries_of(*old(self))
                    &&& contains_key(entries_of(*old(self)), entry@.key)
                    &&& (err matches ErrorKind::DuplicateKey(k) && k@ == entry@.key)
                },
                Ok(split) => {
                    &&& !contains_key(entries_of(*old(self)), entry@.key)
                    &&& node_wf(*final(self))
                    &&& ((*final(self)) is Leaf <==> (*old(self)) is Leaf)
                    &&& match split {
                        None => entries_of(*final(self)) == sorted_insert(
                            entries_of(*old(self)),
                            entry@,
                        ),
                        Some((sep, right)) => {
                            &&& node_wf(right)
                            &&& (right is Leaf <==> (*old(self)) is Leaf)
                            &&& split_ok(
                                entries_of(*old(self)),
                                entry@,
                                entries_of(*final(self)),
                                sep@,
                                entries_of(right),
                            )
                        },
                    }
                },
            },
        decreases *old(self),
    {
        let ghost ev = entry@;
        let ghost old_es = entries_of(*old(self));
        match self {
            BPTreeNode::Leaf(l) => {
                match l.insert(entry, page_byte_size, serializer) {
                    Err(e) => Err(e),
                    Ok(None) => Ok(None),
                    Ok(Some(right)) => {
                        let sep = right.left_key();
                        proof {
                            lemma_sorted_insert(old_es, ev);
                            let ns = sorted_insert(old_es, ev);
                            let m = ns.len() as int / 2;
                            assert(ns.subrange(0, m) + ns.subrange(m, ns.len() as int) =~= ns);
                        }
                        Ok(Some((sep, BPTreeNode::Leaf(right))))
                    },
                }
            },
            BPTreeNode::Internal(node) => {
                match node.insert(entry, degree, page_byte_size, serializer) {
                    Err(e) => Err(e),
                    Ok(None) => Ok(None),
                    Ok(Some((sep, right))) => Ok(Some((sep, BPTreeNode::Internal(right)))),
                }
            },
        }
    }
}

impl InternalNode {
    /// Inserts an entry below this internal node: the key is routed to the
    /// child whose range holds it; a child split adds a separator here,
    /// and when the separator count reaches the degree this node splits in
    /// turn.
    #[verifier::rlimit(100)]
    #[verifier::spinoff_prover]
    pub fn insert(
        &mut self,
        entry: Entry,
        degree: usize,
        page_byte_size: usize,
        serializer: &Serializer,
    ) -> (r: Result<Option<(TableValue, InternalNode)>, ErrorKind>)
        requires
            internal_wf(*old(self)),
            valid_entry(entry@),
        ensures
            match r {
                Err(err) => {
                    &&& internal_wf(*final(self))
                    &&& internal_entries(*final(self)) == internal_entries(*old(self))
                    &&& contains_key(internal_entries(*old(self)), entry@.key)
                    &&& (err matches ErrorKind::DuplicateKey(k) && k@ == entry@.key)
                },
                Ok(split) => {
                    &&& !contains_key(internal_entries(*old(self)), entry@.key)
                    &&& internal_wf(*final(self))
                    &&& match split {
                        None => {
                            &&& internal_entries(*final(self)) == sorted_insert(
                                internal_entries(*old(self)),
                                entry@,
                            )
                            &&& final(self).keys@.len() <= old(self).keys@.len() + 1
                            &&& (final(self).keys@.len() == old(self).keys@.len() + 1
                                ==> final(self).keys@.len() < degree || final(self).keys@.len()
                                < 3)
                        },
                        Some((sep, right)) => {
                            &&& internal_wf(right)
                            &&& split_ok(
                                internal_entries(*old(self)),
                                entry@,
                                internal_entries(*final(self)),
                                sep@,
                                internal_entries(right),
                            )
                            &&& ({
                                let total = final(self).keys@.len() + right.keys@.len() + 1;
                                &&& total >= degree
                                &&& total >= 3
                                &&& final(self).keys@.len() == total / 2
                            })
                        },
                    }
                },
            },
        decreases *old(self),
    {
        let ghost oldm = internal_entries(*old(self));
        let ghost ks = old(self).keys.deep_view();
        let ghost cs = old(self).children@;
        let ghost ev = entry@;
        proof {
            lemma_wf_keys_sorted(*old(self));
        }
        let (found, idx) = key_search(&self.keys, &entry.key);
        if found {
            proof {
                lemma_children_entries_split(cs, idx + 1);
                let pre = children_entries(cs.subrange(0, idx + 1));
                assert(entries_of(cs[idx + 1]).len() >= 1);
                assert(oldm[pre.len() as int] == entries_of(cs[idx + 1])[0]);
                assert(oldm[pre.len() as int].key == ev.key);
                assert(contains_key(oldm, ev.key));
            }
            return Err(ErrorKind::DuplicateKey(entry.key));
        }
        proof {
            assert(idx < cs.len());
            lemma_children_wf_index(cs, idx as int);
            assert(decreases_to!(*old(self) => cs[idx as int])) by {
                assert(decreases_to!(old(self).children => old(self).children@[idx as int]));
            }
        }
        let ghost bm = entries_of(cs[idx as int]);
        let res = self.children[idx].insert(entry, degree, page_byte_size, serializer);
        // Facts shared by all outcomes of the recursive call.
        proof {
            lemma_children_entries_split(cs, idx as int);
        }
        let ghost a_part = children_entries(cs.subrange(0, idx as int));
        let ghost c_part = children_entries(cs.subrange(idx + 1, cs.len() as int));
        proof {
            assert(oldm == a_part + bm + c_part);
            // Everything left of the routed child is strictly below the key.
            assert forall|c: int| 0 <= c < idx implies all_keys_lt(
                entries_of(#[trigger] cs.subrange(0, idx as int)[c]),
                ev.key,
            ) by {
                assert(cs.subrange(0, idx as int)[c] == cs[c]);
                assert(all_keys_lt(entries_of(cs[c]), ks[c]));
                assert(val_lt(ks[c], ev.key));
                assert forall|i: int| 0 <= i < entries_of(cs[c]).len() implies val_lt(
                    (#[trigger] entries_of(cs[c])[i]).key,
                    ev.key,
                ) by {
                    crate::value::lemma_val_lt_transitive(entries_of(cs[c])[i].key, ks[c], ev.key);
                }
            }
            lemma_ce_all_lt(cs.subrange(0, idx as int), ev.key);
            // Everything right of the routed child is strictly above the key.
            assert forall|c: int| 0 <= c < cs.subrange(idx + 1, cs.len() as int).len() implies
                all_keys_gt(entries_of(#[trigger] cs.subrange(idx + 1, cs.len() as int)[c]), ev.key)
            by {
                let cc = c + idx + 1;
                assert(cs.subrange(idx + 1, cs.len() as int)[c] == cs[cc]);
                assert(all_keys_ge(entries_of(cs[cc]), ks[cc - 1]));
                assert(val_lt(ev.key, ks[idx as int]));
                assert(val_le(ks[idx as int], ks[cc - 1])) by {
                    if idx < cc - 1 {
                        assert(val_lt(ks[idx as int], ks[cc - 1]));
                    }
                }
                assert forall|i: int| 0 <= i < entries_of(cs[cc]).len() implies val_lt(
                    ev.key,
                    (#[trigger] entries_of(cs[cc])[i]).key,
                ) by {
                    lemma_val_lt_le_trans(ev.key, ks[idx as int], ks[cc - 1]);
                    lemma_val_lt_le_trans(ev.key, ks[cc - 1], entries_of(cs[cc])[i].key);
                }
            }
            lemma_ce_all_gt(cs.subrange(idx + 1, cs.len() as int), ev.key);
            assert(!contains_key(a_part, ev.key)) by {
                if contains_key(a_part, ev.key) {
                    let t = choose|t: int| 0 <= t < a_part.len() && a_part[t].key == ev.key;
                    crate::value::lemma_val_lt_trichotomy(a_part[t].key, ev.key);
                }
            }
            assert(!contains_key(c_part, ev.key)) by {
                if contains_key(c_part, ev.key) {
                    let t = choose|t: int| 0 <= t < c_part.len() && c_part[t].key == ev.key;
                    crate::value::lemma_val_lt_trichotomy(c_part[t].key, ev.key);
                }
            }
        }
        match res {
            Err(err) => {
                proof {
                    let cs2 = self.children@;
                    assert(cs2 =~= cs.update(idx as int, cs2[idx as int]));
                    lemma_children_entries_split(cs2, idx as int);
                    assert(cs2.subrange(0, idx as int) =~= cs.subrange(0, idx as int));
                    assert(cs2.subrange(idx + 1, cs2.len() as int) =~= cs.subrange(
                        idx + 1,
                        cs.len() as int,
                    ));
                    assert(entries_of(cs2[idx as int]) == bm);
                    assert(internal_entries(*self) == oldm);
                    lemma_contains_concat(a_part + bm, c_part, ev.key);
                    lemma_contains_concat(a_part, bm, ev.key);
                    assert((a_part + bm) + c_part =~= oldm);
                    assert(contains_key(oldm, ev.key));
                    // Well-formedness is untouched: every child has the same
                    // entries as before and the replaced child is well-formed.
                    assert forall|c: int| 0 <= c < cs2.len() implies node_wf(#[trigger] cs2[c]) by {
                        if c != idx {
                            lemma_children_wf_index(cs, c);
                        }
                    }
                    lemma_children_wf_build(cs2);
                    assert forall|c: int| 1 <= c < cs2.len() implies entries_of(
                        #[trigger] cs2[c],
                    ).len() >= 1 by {
                        if c != idx {
                            assert(cs2[c] == cs[c]);
                        }
                    }
                    assert forall|c: int| 0 <= c < ks.len() implies all_keys_lt(
                        entries_of(#[trigger] cs2[c]),
                        ks[c],
                    ) by {
                        if c != idx {
                            assert(cs2[c] == cs[c]);
                        }
                    }
                    assert forall|c: int| 0 <= c < ks.len() implies all_keys_ge(
                        entries_of(#[trigger] cs2[c + 1]),
                        ks[c],
                    ) by {
                        if c + 1 != idx {
                            assert(cs2[c + 1] == cs[c + 1]);
                        }
                    }
                    assert forall|c: int| 0 <= c < ks.len() implies #[trigger] ks[c] == entries_of(
                        cs2[c + 1],
                    )[0].key by {
                        if c + 1 != idx {
                            assert(cs2[c + 1] == cs[c + 1]);
                        }
                    }
                    assert(internal_wf(*self));
                }
                Err(err)
            },
            Ok(child_split) => {
                proof {
                    lemma_node_sorted(cs[idx as int]);
                    lemma_sorted_insert(bm, ev);
                    lemma_sorted_insert_mid(a_part, bm, c_part, ev);
                    lemma_contains_concat(a_part + bm, c_part, ev.key);
                    lemma_contains_concat(a_part, bm, ev.key);
                    assert((a_part + bm) + c_part =~= oldm);
                    assert(!contains_key(oldm, ev.key));
                }
                match child_split {
                    None => {
                        proof {
                            let cs2 = self.children@;
                            let nb = entries_of(cs2[idx as int]);
                            assert(nb == sorted_insert(bm, ev));
                            assert(cs2 =~= cs.update(idx as int, cs2[idx as int]));
                            lemma_children_entries_split(cs2, idx as int);
                            assert(cs2.subrange(0, idx as int) =~= cs.subrange(0, idx as int));
                            assert(cs2.subrange(idx + 1, cs2.len() as int) =~= cs.subrange(
                                idx + 1,
                                cs.len() as int,
                            ));
                            assert(internal_entries(*self) == a_part + nb + c_part);
                            assert(a_part + sorted_insert(bm, ev) + c_part == sorted_insert(
                                oldm,
                                ev,
                            ));
                            // Well-formedness with the grown child.
                            assert forall|c: int| 0 <= c < cs2.len() implies node_wf(
                                #[trigger] cs2[c],
                            ) by {
                                if c != idx {
                                    lemma_children_wf_index(cs, c);
                                }
                            }
                            lemma_children_wf_build(cs2);
                            assert forall|c: int| 1 <= c < cs2.len() implies entries_of(
                                #[trigger] cs2[c],
                            ).len() >= 1 by {
                                if c != idx {
                                    assert(cs2[c] == cs[c]);
                                }
                            }
                            assert forall|c: int| 0 <= c < ks.len() implies all_keys_lt(
                                entries_of(#[trigger] cs2[c]),
                                ks[c],
                            ) by {
                                if c != idx {
                                    assert(cs2[c] == cs[c]);
                                } else {
                                    assert(val_lt(ev.key, ks[c]));
                                    assert forall|i: int| 0 <= i < nb.len() implies val_lt(
                                        (#[trigger] nb[i]).key,
                                        ks[c],
                                    ) by {
                                        if nb[i] == ev {
                                        } else {
                                            let t = choose|t: int|
                                                0 <= t < bm.len() && bm[t] == nb[i];
                                            assert(all_keys_lt(bm, ks[c]));
                                        }
                                    }
                                }
                            }
                            assert forall|c: int| 0 <= c < ks.len() implies all_keys_ge(
                                entries_of(#[trigger] cs2[c + 1]),
                                ks[c],
                            ) by {
                                if c + 1 != idx {
                                    assert(cs2[c + 1] == cs[c + 1]);
                                } else {
                                    assert(val_lt(ks[c], ev.key));
                                    assert forall|i: int| 0 <= i < nb.len() implies val_le(
                                        ks[c],
                                        (#[trigger] nb[i]).key,
                                    ) by {
                                        if nb[i] == ev {
                                        } else {
                                            let t = choose|t: int|
                                                0 <= t < bm.len() && bm[t] == nb[i];
                                            assert(all_keys_ge(bm, ks[c]));
                                        }
                                    }
                                }
                            }
                            assert forall|c: int| 0 <= c < ks.len() implies #[trigger] ks[c]
                                == entries_of(cs2[c + 1])[0].key by {
                                if c + 1 != idx {
                                    assert(cs2[c + 1] == cs[c + 1]);
                                } else {
                                    assert(bm.len() >= 1);
                                    assert(ks[c] == bm[0].key);
                                    assert(val_lt(ks[c], ev.key));
                                    lemma_sorted_insert_first(bm, ev);
                                }
                            }
                            assert(internal_wf(*self));
                        }
                        Ok(None)
                    },
                    Some((sep, right)) => {
                        let ghost lm = entries_of(self.children@[idx as int]);
                        let ghost rm = entries_of(right);
                        let ghost sepv = sep@;
                        self.children.insert(idx + 1, right);
                        self.keys.insert(idx, sep);
                        proof {
                            let cs2 = self.children@;
                            let ks2 = self.keys.deep_view();
                            assert(cs2 =~= cs.update(idx as int, cs2[idx as int]).insert(
                                idx + 1,
                                cs2[idx + 1],
                            ));
                            assert(entries_of(cs2[idx as int]) == lm);
                            assert(entries_of(cs2[idx + 1]) == rm);
                            assert forall|j: int| 0 <= j < ks2.len() implies #[trigger] ks2[j] == (
                            if j < idx {
                                ks[j]
                            } else if j == idx {
                                sepv
                            } else {
                                ks[j - 1]
                            }) by {
                                assert(ks2[j] == self.keys@[j]@);
                                if j < idx {
                                    assert(self.keys@[j] == old(self).keys@[j]);
                                } else if j > idx {
                                    assert(self.keys@[j] == old(self).keys@[j - 1]);
                                }
                            }
                            // The flattened entries are the inserted sequence.
                            lemma_children_entries_split(cs2, idx as int);
                            assert(cs2.subrange(0, idx as int) =~= cs.subrange(0, idx as int));
                            let tail2 = cs2.subrange(idx + 1, cs2.len() as int);
                            assert(tail2.drop_first() =~= cs.subrange(idx + 1, cs.len() as int));
                            assert(tail2[0] == cs2[idx + 1]);
                            assert(children_entries(tail2) =~= rm + c_part);
                            assert(internal_entries(*self) =~= a_part + lm + (rm + c_part));
                            assert(lm + rm == sorted_insert(bm, ev));
                            assert(a_part + lm + (rm + c_part) =~= a_part + (lm + rm) + c_part);
                            assert(internal_entries(*self) == sorted_insert(oldm, ev));
                            // Well-formedness with the split child pair.
                            assert forall|c: int| 0 <= c < cs2.len() implies node_wf(
                                #[trigger] cs2[c],
                            ) by {
                                if c < idx {
                                    assert(cs2[c] == cs[c]);
                                    lemma_children_wf_index(cs, c);
                                } else if c > idx + 1 {
                                    assert(cs2[c] == cs[c - 1]);
                                    lemma_children_wf_index(cs, c - 1);
                                }
                            }
                            lemma_children_wf_build(cs2);
                            assert(self.keys.len() >= 1);
                            assert(self.children.len() == self.keys.len() + 1);
                            // Elements of the two halves come from the insertion.
                            let nb = sorted_insert(bm, ev);
                            assert forall|i: int| 0 <= i < lm.len() implies (#[trigger] lm[i] == ev
                                || exists|t: int| 0 <= t < bm.len() && bm[t] == lm[i]) by {
                                assert(lm[i] == nb[i]);
                            }
                            assert forall|i: int| 0 <= i < rm.len() implies (#[trigger] rm[i] == ev
                                || exists|t: int| 0 <= t < bm.len() && bm[t] == rm[i]) by {
                                assert(rm[i] == nb[lm.len() + i]);
                            }
                            assert forall|c: int| 1 <= c < cs2.len() implies entries_of(
                                #[trigger] cs2[c],
                            ).len() >= 1 by {
                                if c < idx {
                                    assert(cs2[c] == cs[c]);
                                } else if c == idx {
                                    assert(bm.len() >= 1);
                                } else if c == idx + 1 {
                                } else {
                                    assert(cs2[c] == cs[c - 1]);
                                }
                            }
                            assert forall|c: int| 0 <= c < ks2.len() implies all_keys_lt(
                                entries_of(#[trigger] cs2[c]),
                                ks2[c],
                            ) by {
                                if c < idx {
                                    assert(cs2[c] == cs[c] && ks2[c] == ks[c]);
                                } else if c == idx {
                                    assert(ks2[c] == sepv);
                                } else if c == idx + 1 {
                                    assert(ks2[c] == ks[idx as int]);
                                    assert(val_lt(ev.key, ks[idx as int]));
                                    assert forall|i: int| 0 <= i < rm.len() implies val_lt(
                                        (#[trigger] rm[i]).key,
                                        ks[idx as int],
                                    ) by {
                                        if rm[i] == ev {
                                        } else {
                                            let t = choose|t: int|
                                                0 <= t < bm.len() && bm[t] == rm[i];
                                            assert(all_keys_lt(bm, ks[idx as int]));
                                        }
                                    }
                                } else {
                                    assert(cs2[c] == cs[c - 1] && ks2[c] == ks[c - 1]);
                                }
                            }
                            assert forall|c: int| 0 <= c < ks2.len() implies all_keys_ge(
                                entries_of(#[trigger] cs2[c + 1]),
                                ks2[c],
                            ) by {
                                if c < idx - 1 {
                                    assert(cs2[c + 1] == cs[c + 1] && ks2[c] == ks[c]);
                                } else if c == idx - 1 {
                                    assert(ks2[c] == ks[c]);
                                    assert(val_lt(ks[c], ev.key));
                                    assert forall|i: int| 0 <= i < lm.len() implies val_le(
                                        ks[c],
                                        (#[trigger] lm[i]).key,
                                    ) by {
                                        if lm[i] == ev {
                                        } else {
                                            let t = choose|t: int|
                                                0 <= t < bm.len() && bm[t] == lm[i];
                                            assert(all_keys_ge(bm, ks[c]));
                                        }
                                    }
                                } else if c == idx {
                                    assert(ks2[c] == sepv);
                                } else if c == idx + 1 {
                                    assert(cs2[c + 1] == cs[idx + 1] && ks2[c] == ks[idx as int]);
                                } else {
                                    assert(cs2[c + 1] == cs[c] && ks2[c] == ks[c - 1]);
                                }
                            }
                            assert forall|c: int| 0 <= c < ks2.len() implies #[trigger] ks2[c]
                                == entries_of(cs2[c + 1])[0].key by {
                                if c < idx - 1 {
                                    assert(cs2[c + 1] == cs[c + 1] && ks2[c] == ks[c]);
                                } else if c == idx - 1 {
                                    assert(ks2[c] == ks[c]);
                                    assert(bm.len() >= 1);
                                    assert(ks[c] == bm[0].key);
                                    assert(val_lt(ks[c], ev.key));
                                    lemma_sorted_insert_first(bm, ev);
                                    assert(lm.len() >= 1);
                                    assert(lm[0] == nb[0]);
                                } else if c == idx {
                                    assert(ks2[c] == sepv);
                                } else if c == idx + 1 {
                                    assert(cs2[c + 1] == cs[idx + 1] && ks2[c] == ks[idx as int]);
                                } else {
                                    assert(cs2[c + 1] == cs[c] && ks2[c] == ks[c - 1]);
                                }
                            }
                            assert(internal_wf(*self));
                        }
                        if self.keys.len() >= degree && self.keys.len() >= 3 {
                            let (promoted, right_half) = self.split();
                            Ok(Some((promoted, right_half)))
                        } else {
                            Ok(None)
                        }
                    },
                }
            },
        }
    }

    /// Splits this node in half: the middle separator is promoted and the
    /// upper separators and children move to a new right sibling.
    #[verifier::rlimit(60)]
    #[verifier::spinoff_prover]
    fn split(&mut self) -> (r: (TableValue, InternalNode))
        requires
            internal_wf(*old(self)),
            old(self).keys.len() >= 3,
        ensures
            internal_wf(*final(self)),
            internal_wf(r.1),
            internal_entries(*final(self)) + internal_entries(r.1) == internal_entries(*old(self)),
            internal_entries(r.1).len() >= 1,
            internal_entries(*final(self)).len() >= 1,
            r.0@ == internal_entries(r.1)[0].key,
            all_keys_lt(internal_entries(*final(self)), r.0@),
            all_keys_ge(internal_entries(r.1), r.0@),
            final(self).keys@.len() == old(self).keys@.len() / 2,
            r.1.keys@.len() == old(self).keys@.len() - old(self).keys@.len() / 2 - 1,
    {
        let ghost ks = old(self).keys.deep_view();
        let ghost cs = old(self).children@;
        let mid = self.keys.len() / 2;
        proof {
            lemma_split_parts(*old(self), mid as int);
        }
        let right_keys = self.keys.split_off(mid + 1);
        let promoted = match self.keys.pop() {
            Some(k) => k,
            None => {
                proof {
                    assert(false);
                }
                TableValue::Null
            },
        };
        let right_children = self.children.split_off(mid + 1);
        let right = InternalNode { keys: right_keys, children: right_children };
        proof {
            let m = mid as int;
            assert(self.children@ == cs.subrange(0, m + 1));
            assert(right.children@ == cs.subrange(m + 1, cs.len() as int));
            assert(self.keys.deep_view() =~= ks.subrange(0, m)) by {
                assert forall|j: int| 0 <= j < self.keys@.len() implies (
                #[trigger] self.keys@[j])@ == ks.subrange(0, m)[j] by {
                    assert(self.keys@[j] == old(self).keys@[j]);
                }
            }
            assert(right.keys.deep_view() =~= ks.subrange(m + 1, ks.len() as int)) by {
                assert forall|j: int| 0 <= j < right.keys@.len() implies (
                #[trigger] right.keys@[j])@ == ks.subrange(m + 1, ks.len() as int)[j] by {
                    assert(right.keys@[j] == old(self).keys@[m + 1 + j]);
                }
            }
            assert(promoted@ == ks[m]);
            assert(internal_wf(*self));
            assert(internal_wf(right));
        }
        (promoted, right)
    }
}

/// What splitting a well-formed internal node at separator `m` yields: two
/// well-formed halves whose flattened entries concatenate to the original,
/// strictly ordered around the promoted separator, which is the smallest
/// key of the right half.
#[verifier::rlimit(100)]
#[verifier::spinoff_prover]
proof fn lemma_split_parts(node: InternalNode, m: int)
    requires
        internal_wf(node),
        1 <= m <= node.keys.deep_view().len() - 2,
    ensures
        ({
            let ks = node.keys.deep_view();
            let cs = node.children@;
            let ks1 = ks.subrange(0, m);
            let cs1 = cs.subrange(0, m + 1);
            let ks2 = ks.subrange(m + 1, ks.len() as int);
            let cs2 = cs.subrange(m + 1, cs.len() as int);
            &&& children_wf(cs1)
            &&& children_wf(cs2)
            &&& forall|c: int| 1 <= c < cs1.len() ==> entries_of(#[trigger] cs1[c]).len() >= 1
            &&& forall|c: int| 1 <= c < cs2.len() ==> entries_of(#[trigger] cs2[c]).len() >= 1
            &&& forall|c: int| 0 <= c < ks1.len() ==> all_keys_lt(
                entries_of(#[trigger] cs1[c]),
                ks1[c],
            )
            &&& forall|c: int| 0 <= c < ks1.len() ==> all_keys_ge(
                entries_of(#[trigger] cs1[c + 1]),
                ks1[c],
            )
            &&& forall|c: int| 0 <= c < ks1.len() ==> #[trigger] ks1[c] == entries_of(
                cs1[c + 1],
            )[0].key
            &&& forall|c: int| 0 <= c < ks2.len() ==> all_keys_lt(
                entries_of(#[trigger] cs2[c]),
                ks2[c],
            )
            &&& forall|c: int| 0 <= c < ks2.len() ==> all_keys_ge(
                entries_of(#[trigger] cs2[c + 1]),
                ks2[c],
            )
            &&& forall|c: int| 0 <= c < ks2.len() ==> #[trigger] ks2[c] == entries_of(
                cs2[c + 1],
            )[0].key
            &&& children_entries(cs1) + children_entries(cs2) == children_entries(cs)
            &&& children_entries(cs2).len() >= 1
            &&& children_entries(cs1).len() >= 1
            &&& ks[m] == children_entries(cs2)[0].key
            &&& all_keys_lt(children_entries(cs1), ks[m])
            &&& all_keys_ge(children_entries(cs2), ks[m])
        }),
{
    lemma_wf_keys_sorted(node);
    let ks = node.keys.deep_view();
    let cs = node.children@;
    let ks1 = ks.subrange(0, m);
    let cs1 = cs.subrange(0, m + 1);
    let ks2 = ks.subrange(m + 1, ks.len() as int);
    let cs2 = cs.subrange(m + 1, cs.len() as int);
    lemma_ce_cat(cs, m + 1);
    // The right part starts with the promoted separator's subtree.
    assert(entries_of(cs[m + 1]).len() >= 1);
    assert(cs2[0] == cs[m + 1]);
    assert(children_entries(cs2) =~= entries_of(cs2[0]) + children_entries(cs2.drop_first()));
    assert(children_entries(cs2)[0] == entries_of(cs[m + 1])[0]);
    assert(ks[m] == children_entries(cs2)[0].key);
    assert(children_entries(cs2).len() >= 1);
    // The left part keeps a non-empty child.
    lemma_children_entries_split(cs1, 1);
    assert(cs1[1] == cs[1]);
    assert(entries_of(cs[1]).len() >= 1);
    assert(children_entries(cs1).len() >= 1) by {
        let pre = children_entries(cs1.subrange(0, 1));
        assert(children_entries(cs1)[pre.len() as int] == entries_of(cs1[1])[0]);
    }
    // Bounds around the promoted separator.
    assert forall|c: int| 0 <= c < cs1.len() implies all_keys_lt(
        entries_of(#[trigger] cs1[c]),
        ks[m],
    ) by {
        assert(cs1[c] == cs[c]);
        assert(all_keys_lt(entries_of(cs[c]), ks[c]));
        assert forall|i: int| 0 <= i < entries_of(cs[c]).len() implies val_lt(
            (#[trigger] entries_of(cs[c])[i]).key,
            ks[m],
        ) by {
            if c < m {
                crate::value::lemma_val_lt_transitive(entries_of(cs[c])[i].key, ks[c], ks[m]);
            }
        }
    }
    lemma_ce_all_lt(cs1, ks[m]);
    assert forall|c: int| 0 <= c < cs2.len() implies all_keys_ge(
        entries_of(#[trigger] cs2[c]),
        ks[m],
    ) by {
        assert(cs2[c] == cs[m + 1 + c]);
        assert(all_keys_ge(entries_of(cs[m + 1 + c]), ks[m + c]));
        assert forall|i: int| 0 <= i < entries_of(cs[m + 1 + c]).len() implies val_le(
            ks[m],
            (#[trigger] entries_of(cs[m + 1 + c])[i]).key,
        ) by {
            if c > 0 {
                assert(val_lt(ks[m], ks[m + c]));
                lemma_val_lt_le_trans(ks[m], ks[m + c], entries_of(cs[m + 1 + c])[i].key);
            }
        }
    }
    lemma_ce_all_ge(cs2, ks[m]);
    // Well-formedness of both halves.
    assert forall|c: int| 0 <= c < cs1.len() implies node_wf(#[trigger] cs1[c]) by {
        lemma_children_wf_index(cs, c);
    }
    lemma_children_wf_build(cs1);
    assert forall|c: int| 0 <= c < cs2.len() implies node_wf(#[trigger] cs2[c]) by {
        lemma_children_wf_index(cs, m + 1 + c);
    }
    lemma_children_wf_build(cs2);
    assert forall|c: int| 1 <= c < cs1.len() implies entries_of(#[trigger] cs1[c]).len() >= 1 by {
        assert(cs1[c] == cs[c]);
    }
    assert forall|c: int| 1 <= c < cs2.len() implies entries_of(#[trigger] cs2[c]).len() >= 1 by {
        assert(cs2[c] == cs[m + 1 + c]);
    }
    assert forall|c: int| 0 <= c < ks1.len() implies all_keys_lt(
        entries_of(#[trigger] cs1[c]),
        ks1[c],
    ) by {
        assert(cs1[c] == cs[c] && ks1[c] == ks[c]);
    }
    assert forall|c: int| 0 <= c < ks1.len() implies all_keys_ge(
        entries_of(#[trigger] cs1[c + 1]),
        ks1[c],
    ) by {
        assert(cs1[c + 1] == cs[c + 1] && ks1[c] == ks[c]);
    }
    assert forall|c: int| 0 <= c < ks1.len() implies #[trigger] ks1[c] == entries_of(
        cs1[c + 1],
    )[0].key by {
        assert(cs1[c + 1] == cs[c + 1] && ks1[c] == ks[c]);
    }
    assert forall|c: int| 0 <= c < ks2.len() implies all_keys_lt(
        entries_of(#[trigger] cs2[c]),
        ks2[c],
    ) by {
        assert(cs2[c] == cs[m + 1 + c] && ks2[c] == ks[m + 1 + c]);
    }
    assert forall|c: int| 0 <= c < ks2.len() implies all_keys_ge(
        entries_of(#[trigger] cs2[c + 1]),
        ks2[c],
    ) by {
        assert(cs2[c + 1] == cs[m + 2 + c] && ks2[c] == ks[m + 1 + c]);
    }
    assert forall|c: int| 0 <= c < ks2.len() implies #[trigger] ks2[c] == entries_of(
        cs2[c + 1],
    )[0].key by {
        assert(cs2[c + 1] == cs[m + 2 + c] && ks2[c] == ks[m + 1 + c]);
    }
}


/// The rows of the entries, in order.
pub open spec fn values_of(es: Seq<EntryModel>) -> Seq<Seq<ValueModel>> {
    Seq::new(es.len(), |i: int| es[i].value)
}

/// The B+-tree: an ordered map from keys to rows. `degree` bounds the
/// separator count of internal nodes; a leaf splits when its serialized
/// size reaches `page_byte_size`.
#[derive(Debug)]
pub struct BPTree {
    pub degree: usize,
    pub page_byte_size: usize,
    pub serializer: Serializer,
    pub root: Option<BPTreeNode>,
}

/// All entries of the tree, in ascending key order.
pub open spec fn tree_entries(t: BPTree) -> Seq<EntryModel> {
    match t.root {
        None => Seq::empty(),
        Some(n) => entries_of(n),
    }
}

/// Well-formedness of the tree: its root, if any, is a well-formed node.
pub open spec fn tree_wf(t: BPTree) -> bool {
    match t.root {
        None => true,
        Some(n) => node_wf(n),
    }
}

/// Appends one copy of each row below the node, in ascending key order.
fn node_values_into(n: &BPTreeNode, out: &mut Vec<Vec<TableValue>>)
    ensures
        final(out).deep_view() == old(out).deep_view() + values_of(entries_of(*n)),
    decreases *n,
{
    match n {
        BPTreeNode::Leaf(l) => {
            let ghost dv = l.entries.deep_view();
            let k = l.entries.len();
            let mut i: usize = 0;
            while i < k
                invariant
                    i <= k,
                    k == l.entries.len(),
                    dv == l.entries.deep_view(),
                    out.deep_view() =~= old(out).deep_view() + values_of(dv.subrange(0, i as int)),
                decreases k - i,
            {
                proof {
                    assert(dv[i as int] == l.entries@[i as int]@);
                }
                let row = crate::value::row_dup(&l.entries[i].value);
                let ghost rv = row.deep_view();
                let ghost pre_v = out@;
                let ghost pre_dv = out.deep_view();
                proof {
                    assert(rv == dv[i as int].value);
                }
                out.push(row);
                proof {
                    assert(out@ == pre_v.push(row));
                    assert forall|j: int| 0 <= j < pre_v.len() implies out.deep_view()[j]
                        == pre_dv[j] by {
                        assert(out@[j] == pre_v[j]);
                    }
                    assert(out.deep_view()[pre_v.len() as int] == rv);
                    assert(out.deep_view() =~= pre_dv + seq![rv]);
                    assert(values_of(dv.subrange(0, i + 1)) =~= values_of(dv.subrange(0, i as int))
                        + seq![rv]);
                    assert(out.deep_view() =~= old(out).deep_view() + values_of(
                        dv.subrange(0, i + 1),
                    ));
                }
                i = i + 1;
            }
            proof {
                assert(dv.subrange(0, k as int) =~= dv);
                assert(out.deep_view() =~= old(out).deep_view() + values_of(entries_of(*n)));
            }
        },
        BPTreeNode::Internal(node) => {
            let ghost cs = node.children@;
            let k = node.children.len();
            let mut i: usize = 0;
            proof {
                assert(children_entries(cs.subrange(0, 0)) == Seq::<EntryModel>::empty());
                assert(out.deep_view() =~= old(out).deep_view() + values_of(
                    children_entries(cs.subrange(0, 0)),
                ));
            }
            while i < k
                invariant
                    i <= k,
                    k == node.children.len(),
                    cs == node.children@,
                    *n == BPTreeNode::Internal(*node),
                    out.deep_view() =~= old(out).deep_view() + values_of(
                        children_entries(cs.subrange(0, i as int)),
                    ),
                decreases k - i,
            {
                proof {
                    assert(decreases_to!(*n => cs[i as int])) by {
                        assert(decreases_to!(*n => n->Internal_0.children@[i as int]));
                        assert(cs[i as int] == n->Internal_0.children@[i as int]);
                    }
                }
                node_values_into(&node.children[i], out);
                proof {
                    lemma_children_entries_split(cs.subrange(0, i + 1), i as int);
                    assert(cs.subrange(0, i + 1).subrange(0, i as int) =~= cs.subrange(
                        0,
                        i as int,
                    ));
                    assert(cs.subrange(0, i + 1)[i as int] == cs[i as int]);
                    assert(cs.subrange(0, i + 1).subrange(i + 1, i + 1) =~= Seq::<
                        BPTreeNode,
                    >::empty());
                    assert(children_entries(cs.subrange(0, i + 1).subrange(i + 1, i + 1)) == Seq::<
                        EntryModel,
                    >::empty());
                    assert(children_entries(cs.subrange(0, i + 1)) =~= children_entries(
                        cs.subrange(0, i as int),
                    ) + entries_of(cs[i as int]));
                    assert(values_of(children_entries(cs.subrange(0, i + 1))) =~= values_of(
                        children_entries(cs.subrange(0, i as int)),
                    ) + values_of(entries_of(cs[i as int])));
                    assert(out.deep_view() =~= old(out).deep_view() + values_of(
                        children_entries(cs.subrange(0, i + 1)),
                    ));
                }
                i = i + 1;
            }
            proof {
                assert(cs.subrange(0, k as int) =~= cs);
                assert(out.deep_view() =~= old(out).deep_view() + values_of(entries_of(*n)));
            }
        },
    }
}

impl BPTree {
    /// An empty tree measured by the mock codec, so that both the internal
    /// fan-out and the leaf byte budget equal `degree`.
    pub fn new(degree: usize) -> (t: BPTree)
        ensures
            tree_wf(t),
            tree_entries(t) == Seq::<EntryModel>::empty(),
            t.root is None,
            t.degree == degree,
            t.page_byte_size == degree,
            t.serializer is Mock,
    {
        BPTree { degree, page_byte_size: degree, serializer: Serializer::Mock, root: None }
    }

    /// An empty tree with its own leaf byte budget and codec.
    pub fn new_with(degree: usize, page_byte_size: usize, serializer: Serializer) -> (t: BPTree)
        ensures
            tree_wf(t),
            tree_entries(t) == Seq::<EntryModel>::empty(),
            t.root is None,
            t.degree == degree,
            t.page_byte_size == page_byte_size,
            t.serializer == serializer,
    {
        BPTree { degree, page_byte_size, serializer, root: None }
    }

    /// Inserts an entry. Fails with `DuplicateKey` exactly when the key is
    /// already present, leaving the tree unchanged; otherwise the entry
    /// takes its place in ascending key order.
    pub fn insert(&mut self, entry: Entry) -> (r: Result<(), ErrorKind>)
        requires
            tree_wf(*old(self)),
            valid_entry(entry@),
        ensures
            tree_wf(*final(self)),
            final(self).degree == old(self).degree,
            final(self).page_byte_size == old(self).page_byte_size,
            final(self).serializer == old(self).serializer,
            match r {
                Err(err) => {
                    &&& contains_key(tree_entries(*old(self)), entry@.key)
                    &&& tree_entries(*final(self)) == tree_entries(*old(self))
                    &&& (err matches ErrorKind::DuplicateKey(k) && k@ == entry@.key)
                },
                Ok(()) => {
                    &&& !contains_key(tree_entries(*old(self)), entry@.key)
                    &&& tree_entries(*final(self)) == sorted_insert(
                        tree_entries(*old(self)),
                        entry@,
                    )
                    &&& final(self).root is Some
                    &&& (old(self).root is None ==> (final(self).root matches Some(n)
                        && n is Leaf))
                },
            },
    {
        let ghost ev = entry@;
        let degree = self.degree;
        let page_byte_size = self.page_byte_size;
        let serializer = self.serializer.mirror();
        match self.root.take() {
            None => {
                let leaf = LeafNode::new_from_entry(entry);
                proof {
                    assert(!contains_key(Seq::<EntryModel>::empty(), ev.key));
                    assert(sorted_insert(Seq::<EntryModel>::empty(), ev) =~= seq![ev]);
                }
                self.root = Some(BPTreeNode::Leaf(leaf));
                Ok(())
            },
            Some(mut root) => {
                match root.insert(entry, degree, page_byte_size, &serializer) {
                    Err(err) => {
                        self.root = Some(root);
                        Err(err)
                    },
                    Ok(None) => {
                        self.root = Some(root);
                        Ok(())
                    },
                    Ok(Some((sep, right))) => {
                        let ghost lm = entries_of(root);
                        let ghost rm = entries_of(right);
                        let ghost sepv = sep@;
                        let mut children: Vec<BPTreeNode> = Vec::new();
                        children.push(root);
                        children.push(right);
                        let mut keys: Vec<TableValue> = Vec::new();
                        keys.push(sep);
                        let new_root = InternalNode { keys, children };
                        proof {
                            let cs = new_root.children@;
                            let ks = new_root.keys.deep_view();
                            assert(cs.len() == 2);
                            assert(ks =~= seq![sepv]);
                            assert(entries_of(cs[0]) == lm);
                            assert(entries_of(cs[1]) == rm);
                            assert(cs.drop_first().drop_first() =~= Seq::<BPTreeNode>::empty());
                            assert(children_entries(cs.drop_first().drop_first()) == Seq::<
                                EntryModel,
                            >::empty());
                            assert(children_entries(cs.drop_first()) =~= rm);
                            assert(children_entries(cs) =~= lm + rm);
                            assert forall|c: int| 0 <= c < cs.len() implies node_wf(
                                #[trigger] cs[c],
                            ) by {}
                            lemma_children_wf_build(cs);
                            assert(internal_wf(new_root));
                        }
                        self.root = Some(BPTreeNode::Internal(new_root));
                        Ok(())
                    },
                }
            },
        }
    }

    /// One copy of every row, in ascending key order.
    pub fn values(&self) -> (out: Vec<Vec<TableValue>>)
        ensures
            out.deep_view() == values_of(tree_entries(*self)),
    {
        let mut out: Vec<Vec<TableValue>> = Vec::new();
        match &self.root {
            None => {
                proof {
                    assert(out.deep_view() =~= values_of(tree_entries(*self)));
                }
                out
            },
            Some(root) => {
                node_values_into(root, &mut out);
                proof {
                    assert(out.deep_view() =~= values_of(tree_entries(*self)));
                }
                out
            },
        }
    }
}

impl Serializer {
    /// A copy of the strategy tag.
    pub fn mirror(&self) -> (s: Serializer)
        ensures
            s == *self,
    {
        match self {
            Serializer::Mock => Serializer::Mock,
            Serializer::MessagePack => Serializer::MessagePack,
        }
    }
}

/// Law: iteration follows the key order. The entries of a well-formed tree
/// are strictly sorted by key, so the rows that `values` returns come in
/// ascending order of their keys.
pub proof fn lemma_iteration_follows_key_order(t: BPTree)
    requires
        tree_wf(t),
    ensures
        sorted_entries(tree_entries(t)),
        values_of(tree_entries(t)).len() == tree_entries(t).len(),
        forall|i: int| 0 <= i < tree_entries(t).len() ==> values_of(tree_entries(t))[i]
            == tree_entries(t)[i].value,
{
    match t.root {
        None => {},
        Some(n) => {
            lemma_node_sorted(n);
        },
    }
}

/// Law: no duplicate keys. A successful insert puts the key into the tree,
/// and by `insert`'s contract any later insert of the same key fails with
/// `DuplicateKey` and leaves the tree unchanged.
pub proof fn lemma_insert_makes_key_present(before: Seq<EntryModel>, e: EntryModel)
    requires
        sorted_entries(before),
        !contains_key(before, e.key),
    ensures
        contains_key(sorted_insert(before, e), e.key),
{
    lemma_sorted_insert(before, e);
}


/// Depth-first keys of a node: a leaf yields its keys; an internal node
/// yields, for each conceptual triple, the left subtree's keys, the
/// separator, and the right subtree's keys. Children shared by adjacent
/// triples appear twice; the walk exists to inspect the structure in
/// tests.
pub open spec fn dfs_keys(n: BPTreeNode) -> Seq<ValueModel>
    decreases n, 0int,
{
    match n {
        BPTreeNode::Leaf(l) => keys_of(l.entries.deep_view()),
        BPTreeNode::Internal(node) => dfs_triples(node.keys.deep_view(), node.children@, 0),
    }
}

/// Depth-first keys of the triples from index `i` on.
pub open spec fn dfs_triples(ks: Seq<ValueModel>, cs: Seq<BPTreeNode>, i: int) -> Seq<ValueModel>
    decreases cs, ks.len() - i,
{
    if i < 0 || i >= ks.len() || cs.len() < ks.len() + 1 {
        Seq::empty()
    } else {
        dfs_keys(cs[i]) + seq![ks[i]] + dfs_keys(cs[i + 1]) + dfs_triples(ks, cs, i + 1)
    }
}

/// Appends one copy of each depth-first key below the node.
fn node_keys_into(n: &BPTreeNode, out: &mut Vec<TableValue>)
    requires
        node_wf(*n),
    ensures
        final(out).deep_view() == old(out).deep_view() + dfs_keys(*n),
    decreases *n,
{
    match n {
        BPTreeNode::Leaf(l) => {
            let ks = l.keys();
            let ghost pre = out.deep_view();
            let ghost kv = ks.deep_view();
            let mut ks = ks;
            while ks.len() > 0
                invariant
                    out.deep_view() + ks.deep_view() =~= pre + kv,
                decreases ks@.len(),
            {
                let mut rest = ks.split_off(1);
                let v = match ks.pop() {
                    Some(v) => v,
                    None => {
                        proof {
                            assert(false);
                        }
                        TableValue::Null
                    },
                };
                let ghost vv = v@;
                let ghost pre2 = out.deep_view();
                let ghost restv = rest.deep_view();
                out.push(v);
                proof {
                    assert(out.deep_view() =~= pre2 + seq![vv]);
                    assert(pre2 + seq![vv] + restv =~= pre2 + (seq![vv] + restv));
                }
                ks = rest;
            }
            proof {
                assert(ks.deep_view() =~= Seq::<ValueModel>::empty());
                assert(out.deep_view() =~= pre + kv);
            }
        },
        BPTreeNode::Internal(node) => {
            let ghost ks = node.keys.deep_view();
            let ghost cs = node.children@;
            let ghost pre = out.deep_view();
            let n_keys = node.keys.len();
            let mut i: usize = 0;
            while i < n_keys
                invariant
                    i <= n_keys,
                    n_keys == node.keys@.len(),
                    ks == node.keys.deep_view(),
                    cs == node.children@,
                    node.children@.len() == node.keys@.len() + 1,
                    *n == BPTreeNode::Internal(*node),
                    node_wf(*n),
                    out.deep_view() + dfs_triples(ks, cs, i as int) =~= pre + dfs_triples(
                        ks,
                        cs,
                        0,
                    ),
                decreases n_keys - i,
            {
                proof {
                    assert(decreases_to!(*n => cs[i as int])) by {
                        assert(decreases_to!(*n => n->Internal_0.children@[i as int]));
                        assert(cs[i as int] == n->Internal_0.children@[i as int]);
                    }
                    assert(decreases_to!(*n => cs[i + 1])) by {
                        assert(decreases_to!(*n => n->Internal_0.children@[i + 1]));
                        assert(cs[i + 1] == n->Internal_0.children@[i + 1]);
                    }
                    lemma_children_wf_index(cs, i as int);
                    lemma_children_wf_index(cs, i + 1);
                }
                node_keys_into(&node.children[i], out);
                let k = node.keys[i].dup();
                let ghost kv2 = k@;
                let ghost pre3 = out.deep_view();
                out.push(k);
                proof {
                    assert(out.deep_view() =~= pre3 + seq![kv2]);
                    assert(kv2 == ks[i as int]);
                }
                node_keys_into(&node.children[i + 1], out);
                proof {
                    assert(out.deep_view() + dfs_triples(ks, cs, i + 1) =~= pre + dfs_triples(
                        ks,
                        cs,
                        0,
                    ));
                }
                i = i + 1;
            }
            proof {
                assert(dfs_triples(ks, cs, n_keys as int) =~= Seq::<ValueModel>::empty());
                assert(out.deep_view() =~= pre + dfs_keys(*n));
            }
        },
    }
}

impl BPTreeNode {
    /// One copy of each depth-first key below this node.
    pub fn keys(&self) -> (out: Vec<TableValue>)
        requires
            node_wf(*self),
        ensures
            out.deep_view() == dfs_keys(*self),
    {
        let mut out: Vec<TableValue> = Vec::new();
        node_keys_into(self, &mut out);
        proof {
            assert(out.deep_view() =~= dfs_keys(*self));
        }
        out
    }
}

impl LeafNode {
    /// One copy of each row of the leaf, in key order.
    pub fn values(&self) -> (out: Vec<Vec<TableValue>>)
        ensures
            out.deep_view() == values_of(self.entries.deep_view()),
    {
        let ghost dv = self.entries.deep_view();
        let mut out: Vec<Vec<TableValue>> = Vec::new();
        let k = self.entries.len();
        let mut i: usize = 0;
        while i < k
            invariant
                i <= k,
                k == self.entries@.len(),
                dv == self.entries.deep_view(),
                out.deep_view() =~= values_of(dv.subrange(0, i as int)),
            decreases k - i,
        {
            proof {
                assert(dv[i as int] == self.entries@[i as int]@);
            }
            let row = crate::value::row_dup(&self.entries[i].value);
            let ghost rv = row.deep_view();
            let ghost pre = out.deep_view();
            out.push(row);
            proof {
                assert(out.deep_view() =~= pre + seq![rv]);
                assert(out.deep_view() =~= values_of(dv.subrange(0, i + 1)));
            }
            i = i + 1;
        }
        proof {
            assert(dv.subrange(0, k as int) =~= dv);
            assert(out.deep_view() =~= values_of(dv));
        }
        out
    }
}

impl InternalNode {
    /// The first separator of the node.
    pub fn left_key(&self) -> (k: TableValue)
        requires
            self.keys.len() > 0,
        ensures
            k@ == self.keys.deep_view()[0],
    {
        self.keys[0].dup()
    }

    /// The last separator of the node.
    pub fn right_key(&self) -> (k: TableValue)
        requires
            self.keys.len() > 0,
        ensures
            k@ == self.keys.deep_view()[self.keys@.len() - 1],
    {
        self.keys[self.keys.len() - 1].dup()
    }

    /// One copy of each depth-first key below this node.
    pub fn keys(&self) -> (out: Vec<TableValue>)
        requires
            internal_wf(*self),
        ensures
            out.deep_view() == dfs_triples(self.keys.deep_view(), self.children@, 0),
    {
        let mut out: Vec<TableValue> = Vec::new();
        let ghost ks = self.keys.deep_view();
        let ghost cs = self.children@;
        let n_keys = self.keys.len();
        let mut i: usize = 0;
        while i < n_keys
            invariant
                i <= n_keys,
                n_keys == self.keys@.len(),
                ks == self.keys.deep_view(),
                cs == self.children@,
                self.children@.len() == self.keys@.len() + 1,
                internal_wf(*self),
            out.deep_view() + dfs_triples(ks, cs, i as int) =~= dfs_triples(ks, cs, 0),
            decreases n_keys - i,
        {
            proof {
                lemma_children_wf_index(cs, i as int);
                lemma_children_wf_index(cs, i + 1);
            }
            node_keys_into(&self.children[i], &mut out);
            let k = self.keys[i].dup();
            let ghost kv2 = k@;
            let ghost pre3 = out.deep_view();
            out.push(k);
            proof {
                assert(out.deep_view() =~= pre3 + seq![kv2]);
                assert(kv2 == ks[i as int]);
            }
            node_keys_into(&self.children[i + 1], &mut out);
            proof {
                assert(out.deep_view() + dfs_triples(ks, cs, i + 1) =~= dfs_triples(ks, cs, 0));
            }
            i = i + 1;
        }
        proof {
            assert(dfs_triples(ks, cs, n_keys as int) =~= Seq::<ValueModel>::empty());
            assert(out.deep_view() =~= dfs_triples(ks, cs, 0));
        }
        out
    }

    /// One copy of each row below this node, in ascending key order.
    pub fn values(&self) -> (out: Vec<Vec<TableValue>>)
        ensures
            out.deep_view() == values_of(internal_entries(*self)),
    {
        let ghost cs = self.children@;
        let mut out: Vec<Vec<TableValue>> = Vec::new();
        let k = self.children.len();
        let mut i: usize = 0;
        proof {
            assert(children_entries(cs.subrange(0, 0)) == Seq::<EntryModel>::empty()) by {
                assert(cs.subrange(0, 0) =~= Seq::<BPTreeNode>::empty());
            }
            assert(out.deep_view() =~= values_of(children_entries(cs.subrange(0, 0))));
        }
        while i < k
            invariant
                i <= k,
                k == self.children@.len(),
                cs == self.children@,
                out.deep_view() =~= values_of(children_entries(cs.subrange(0, i as int))),
            decreases k - i,
        {
            node_values_into(&self.children[i], &mut out);
            proof {
                lemma_children_entries_split(cs.subrange(0, i + 1), i as int);
                assert(cs.subrange(0, i + 1).subrange(0, i as int) =~= cs.subrange(0, i as int));
                assert(cs.subrange(0, i + 1)[i as int] == cs[i as int]);
                assert(cs.subrange(0, i + 1).subrange(i + 1, i + 1) =~= Seq::<BPTreeNode>::empty());
                assert(children_entries(cs.subrange(0, i + 1).subrange(i + 1, i + 1)) == Seq::<
                    EntryModel,
                >::empty());
                assert(children_entries(cs.subrange(0, i + 1)) =~= children_entries(
                    cs.subrange(0, i as int),
                ) + entries_of(cs[i as int]));
                assert(values_of(children_entries(cs.subrange(0, i + 1))) =~= values_of(
                    children_entries(cs.subrange(0, i as int)),
                ) + values_of(entries_of(cs[i as int])));
                assert(out.deep_view() =~= values_of(children_entries(cs.subrange(0, i + 1))));
            }
            i = i + 1;
        }
        proof {
            assert(cs.subrange(0, k as int) =~= cs);
        }
        out
    }

    /// A parent of two leaves: the separator is the right leaf's first
    /// key, the conceptual triple owns both leaves.
    pub fn from_leaves(left: LeafNode, right: LeafNode) -> (node: InternalNode)
        requires
            leaf_wf(left),
            leaf_wf(right),
            right.entries@.len() >= 1,
            all_keys_lt(left.entries.deep_view(), right.entries.deep_view()[0].key),
        ensures
            internal_wf(node),
            internal_entries(node) == left.entries.deep_view() + right.entries.deep_view(),
            node.keys.deep_view() == seq![right.entries.deep_view()[0].key],
            node.children@ == seq![BPTreeNode::Leaf(left), BPTreeNode::Leaf(right)],
    {
        let sep = right.left_key();
        let ghost lm = left.entries.deep_view();
        let ghost rm = right.entries.deep_view();
        let ghost sepv = sep@;
        let mut keys: Vec<TableValue> = Vec::new();
        keys.push(sep);
        let mut children: Vec<BPTreeNode> = Vec::new();
        children.push(BPTreeNode::Leaf(left));
        children.push(BPTreeNode::Leaf(right));
        let node = InternalNode { keys, children };
        proof {
            let cs = node.children@;
            assert(entries_of(cs[0]) == lm);
            assert(entries_of(cs[1]) == rm);
            assert(node.keys.deep_view() =~= seq![sepv]);
            assert(cs.drop_first().drop_first() =~= Seq::<BPTreeNode>::empty());
            assert(children_entries(cs.drop_first().drop_first()) == Seq::<EntryModel>::empty());
            assert(children_entries(cs.drop_first()) =~= rm);
            assert(children_entries(cs) =~= lm + rm);
            assert forall|c: int| 0 <= c < cs.len() implies node_wf(#[trigger] cs[c]) by {}
            lemma_children_wf_build(cs);
            assert(all_keys_ge(rm, sepv)) by {
                assert forall|t: int| 0 <= t < rm.len() implies val_le(
                    sepv,
                    (#[trigger] rm[t]).key,
                ) by {
                    if t > 0 {
                        assert(val_lt(rm[0].key, rm[t].key));
                    }
                }
            }
            assert(internal_wf(node));
        }
        node
    }

    /// A parent of two leaves; the same construction under its other name.
    pub fn from_two_leaf_nodes(left: LeafNode, right: LeafNode) -> (node: InternalNode)
        requires
            leaf_wf(left),
            leaf_wf(right),
            right.entries@.len() >= 1,
            all_keys_lt(left.entries.deep_view(), right.entries.deep_view()[0].key),
        ensures
            internal_wf(node),
            internal_entries(node) == left.entries.deep_view() + right.entries.deep_view(),
            node.keys.deep_view() == seq![right.entries.deep_view()[0].key],
            node.children@ == seq![BPTreeNode::Leaf(left), BPTreeNode::Leaf(right)],
    {
        InternalNode::from_leaves(left, right)
    }

    /// A parent of two internal nodes around the separator their split
    /// promoted: the separator is the smallest key of the right node.
    pub fn from_internals(left: InternalNode, right: InternalNode, sep: TableValue) -> (node:
        InternalNode)
        requires
            internal_wf(left),
            internal_wf(right),
            internal_entries(right).len() >= 1,
            sep@ == internal_entries(right)[0].key,
            all_keys_lt(internal_entries(left), sep@),
            all_keys_ge(internal_entries(right), sep@),
        ensures
            internal_wf(node),
            internal_entries(node) == internal_entries(left) + internal_entries(right),
            node.keys.deep_view() == seq![sep@],
            node.children@ == seq![BPTreeNode::Internal(left), BPTreeNode::Internal(right)],
    {
        let ghost lm = internal_entries(left);
        let ghost rm = internal_entries(right);
        let ghost sepv = sep@;
        let mut keys: Vec<TableValue> = Vec::new();
        keys.push(sep);
        let mut children: Vec<BPTreeNode> = Vec::new();
        children.push(BPTreeNode::Internal(left));
        children.push(BPTreeNode::Internal(right));
        let node = InternalNode { keys, children };
        proof {
            let cs = node.children@;
            assert(entries_of(cs[0]) == lm);
            assert(entries_of(cs[1]) == rm);
            assert(node.keys.deep_view() =~= seq![sepv]);
            assert(cs.drop_first().drop_first() =~= Seq::<BPTreeNode>::empty());
            assert(children_entries(cs.drop_first().drop_first()) == Seq::<EntryModel>::empty());
            assert(children_entries(cs.drop_first()) =~= rm);
            assert(children_entries(cs) =~= lm + rm);
            assert forall|c: int| 0 <= c < cs.len() implies node_wf(#[trigger] cs[c]) by {}
            lemma_children_wf_build(cs);
            assert(internal_wf(node));
        }
        node
    }

    /// A parent of two internal nodes; the same construction under its
    /// other name.
    pub fn from_two_internal_nodes(left: InternalNode, right: InternalNode, sep: TableValue) -> (
        node: InternalNode)
        requires
            internal_wf(left),
            internal_wf(right),
            internal_entries(right).len() >= 1,
            sep@ == internal_entries(right)[0].key,
            all_keys_lt(internal_entries(left), sep@),
            all_keys_ge(internal_entries(right), sep@),
        ensures
            internal_wf(node),
            internal_entries(node) == internal_entries(left) + internal_entries(right),
            node.keys.deep_view() == seq![sep@],
            node.children@ == seq![BPTreeNode::Internal(left), BPTreeNode::Internal(right)],
    {
        InternalNode::from_internals(left, right, sep)
    }
}

impl BPTree {
    /// One copy of each depth-first key of the tree; for inspecting the
    /// structure in tests, separators included.
    pub fn keys(&self) -> (out: Vec<TableValue>)
        requires
            tree_wf(*self),
        ensures
            out.deep_view() == match self.root {
                None => Seq::<ValueModel>::empty(),
                Some(n) => dfs_keys(n),
            },
    {
        let mut out: Vec<TableValue> = Vec::new();
        match &self.root {
            None => {
                proof {
                    assert(out.deep_view() =~= Seq::<ValueModel>::empty());
                }
            },
            Some(n) => {
                node_keys_into(n, &mut out);
                proof {
                    assert(out.deep_view() =~= dfs_keys(*n));
                }
            },
        }
        out
    }
}

/// A conceptual triple of an internal node: a separator with the subtrees
/// on its two sides.
#[derive(Debug)]
pub struct InternalNodeEntry {
    pub key: TableValue,
    pub left: BPTreeNode,
    pub right: BPTreeNode,
}

impl InternalNodeEntry {
    /// Builds a triple.
    pub fn new(key: TableValue, left: BPTreeNode, right: BPTreeNode) -> (e: InternalNodeEntry)
        ensures
            e.key == key,
            e.left == left,
            e.right == right,
    {
        InternalNodeEntry { key, left, right }
    }

    /// The subtree the key belongs to: left of the separator for smaller
    /// keys, right otherwise.
    pub fn side(&self, key: &TableValue) -> (n: &BPTreeNode)
        ensures
            val_lt(key@, self.key@) ==> n == &self.left,
            !val_lt(key@, self.key@) ==> n == &self.right,
    {
        let o = crate::value::value_cmp(key, &self.key);
        match o {
            core::cmp::Ordering::Less => &self.left,
            _ => {
                proof {
                    crate::value::lemma_val_lt_trichotomy(key@, self.key@);
                }
                &self.right
            },
        }
    }

    /// The depth-first keys of the triple.
    pub fn keys(&self) -> (out: Vec<TableValue>)
        requires
            node_wf(self.left),
            node_wf(self.right),
        ensures
            out.deep_view() == dfs_keys(self.left) + seq![self.key@] + dfs_keys(self.right),
    {
        let mut out: Vec<TableValue> = Vec::new();
        node_keys_into(&self.left, &mut out);
        let k = self.key.dup();
        let ghost kv = k@;
        let ghost pre = out.deep_view();
        out.push(k);
        proof {
            assert(out.deep_view() =~= pre + seq![kv]);
        }
        node_keys_into(&self.right, &mut out);
        proof {
            assert(out.deep_view() =~= dfs_keys(self.left) + seq![self.key@] + dfs_keys(
                self.right,
            ));
        }
        out
    }

    /// Routes an insert into the side the key belongs to; the outcome is
    /// the routed node's.
    pub fn insert(
        &mut self,
        entry: Entry,
        degree: usize,
        page_byte_size: usize,
        serializer: &Serializer,
    ) -> (r: Result<Option<(TableValue, BPTreeNode)>, ErrorKind>)
        requires
            node_wf(old(self).left),
            node_wf(old(self).right),
            valid_entry(entry@),
        ensures
            final(self).key == old(self).key,
            val_lt(entry@.key, old(self).key@) ==> final(self).right == old(self).right
                && node_insert_effect(old(self).left, final(self).left, entry@, r),
            !val_lt(entry@.key, old(self).key@) ==> final(self).left == old(self).left
                && node_insert_effect(old(self).right, final(self).right, entry@, r),
    {
        let ghost ev = entry@;
        let o = crate::value::value_cmp(&entry.key, &self.key);
        match o {
            core::cmp::Ordering::Less => {
                let r = self.left.insert(entry, degree, page_byte_size, serializer);
                proof {
                    assert(node_insert_effect(old(self).left, self.left, ev, r));
                }
                r
            },
            _ => {
                proof {
                    crate::value::lemma_val_lt_trichotomy(entry@.key, self.key@);
                }
                let r = self.right.insert(entry, degree, page_byte_size, serializer);
                proof {
                    assert(node_insert_effect(old(self).right, self.right, ev, r));
                }
                r
            },
        }
    }
}


/// The leaves below a node, in chain order; each element is one leaf's
/// entry sequence.
pub open spec fn leaves_of(n: BPTreeNode) -> Seq<Seq<EntryModel>>
    decreases n,
{
    match n {
        BPTreeNode::Leaf(l) => seq![l.entries.deep_view()],
        BPTreeNode::Internal(node) => leaves_children(node.children@),
    }
}

/// The leaves below a run of children, in chain order.
pub open spec fn leaves_children(cs: Seq<BPTreeNode>) -> Seq<Seq<EntryModel>>
    decreases cs,
{
    if cs.len() == 0 {
        Seq::empty()
    } else {
        leaves_of(cs[0]) + leaves_children(cs.drop_first())
    }
}

/// The leaves of the tree, in chain order.
pub open spec fn tree_leaves(t: BPTree) -> Seq<Seq<EntryModel>> {
    match t.root {
        None => Seq::empty(),
        Some(n) => leaves_of(n),
    }
}

/// Concatenation of a sequence of entry sequences.
pub open spec fn flat_entries(ls: Seq<Seq<EntryModel>>) -> Seq<EntryModel>
    decreases ls.len(),
{
    if ls.len() == 0 {
        Seq::empty()
    } else {
        ls[0] + flat_entries(ls.drop_first())
    }
}

/// Flattening distributes over concatenation.
proof fn lemma_flat_cat(a: Seq<Seq<EntryModel>>, b: Seq<Seq<EntryModel>>)
    ensures
        flat_entries(a + b) == flat_entries(a) + flat_entries(b),
    decreases a.len(),
{
    if a.len() == 0 {
        assert(a + b =~= b);
        assert(flat_entries(a) == Seq::<EntryModel>::empty()) by {
            assert(a =~= Seq::<Seq<EntryModel>>::empty());
        }
        assert(flat_entries(a) + flat_entries(b) =~= flat_entries(b));
    } else {
        assert((a + b).drop_first() =~= a.drop_first() + b);
        assert((a + b)[0] == a[0]);
        lemma_flat_cat(a.drop_first(), b);
        assert(flat_entries(a + b) =~= flat_entries(a) + flat_entries(b));
    }
}

/// Law: the leaf chain covers the tree. The flattened leaves of a node
/// are exactly its entries, in order: no entry lives outside a leaf and
/// none is repeated.
pub proof fn lemma_flat_leaves(n: BPTreeNode)
    ensures
        flat_entries(leaves_of(n)) == entries_of(n),
    decreases n,
{
    match n {
        BPTreeNode::Leaf(l) => {
            assert(leaves_of(n).drop_first() =~= Seq::<Seq<EntryModel>>::empty());
            assert(flat_entries(leaves_of(n).drop_first()) == Seq::<EntryModel>::empty());
            assert(flat_entries(leaves_of(n)) =~= l.entries.deep_view());
        },
        BPTreeNode::Internal(node) => {
            lemma_flat_leaves_children(node.children@);
        },
    }
}

/// The flattened leaves of a child run are exactly its entries.
proof fn lemma_flat_leaves_children(cs: Seq<BPTreeNode>)
    ensures
        flat_entries(leaves_children(cs)) == children_entries(cs),
    decreases cs,
{
    if cs.len() == 0 {
        assert(flat_entries(leaves_children(cs)) =~= children_entries(cs));
    } else {
        lemma_flat_leaves(cs[0]);
        lemma_flat_leaves_children(cs.drop_first());
        lemma_flat_cat(leaves_of(cs[0]), leaves_children(cs.drop_first()));
    }
}

/// The position in the flattening where leaf `i` starts.
pub open spec fn leaf_offset(ls: Seq<Seq<EntryModel>>, i: int) -> int {
    flat_entries(ls.subrange(0, i)).len() as int
}

/// One step of the offsets: each leaf advances the position by its length.
proof fn lemma_offset_step(ls: Seq<Seq<EntryModel>>, i: int)
    requires
        0 <= i < ls.len(),
    ensures
        leaf_offset(ls, i + 1) == leaf_offset(ls, i) + ls[i].len(),
{
    assert(ls.subrange(0, i + 1) =~= ls.subrange(0, i) + seq![ls[i]]);
    lemma_flat_cat(ls.subrange(0, i), seq![ls[i]]);
    assert(flat_entries(seq![ls[i]]) =~= ls[i]) by {
        assert(seq![ls[i]].drop_first() =~= Seq::<Seq<EntryModel>>::empty());
        assert(flat_entries(seq![ls[i]].drop_first()) == Seq::<EntryModel>::empty());
    }
}

/// Offsets never go backwards.
proof fn lemma_offset_mono(ls: Seq<Seq<EntryModel>>, i: int, j: int)
    requires
        0 <= i <= j <= ls.len(),
    ensures
        leaf_offset(ls, i) <= leaf_offset(ls, j),
    decreases j - i,
{
    if i < j {
        lemma_offset_step(ls, j - 1);
        lemma_offset_mono(ls, i, j - 1);
    }
}

/// The entry `k` of leaf `i` sits at its offset in the flattening.
proof fn lemma_flat_index(ls: Seq<Seq<EntryModel>>, i: int, k: int)
    requires
        0 <= i < ls.len(),
        0 <= k < ls[i].len(),
    ensures
        0 <= leaf_offset(ls, i) + k < flat_entries(ls).len(),
        flat_entries(ls)[leaf_offset(ls, i) + k] == ls[i][k],
{
    assert(ls =~= ls.subrange(0, i) + (seq![ls[i]] + ls.subrange(i + 1, ls.len() as int)));
    lemma_flat_cat(ls.subrange(0, i), seq![ls[i]] + ls.subrange(i + 1, ls.len() as int));
    lemma_flat_cat(seq![ls[i]], ls.subrange(i + 1, ls.len() as int));
    assert(flat_entries(seq![ls[i]]) =~= ls[i]) by {
        assert(seq![ls[i]].drop_first() =~= Seq::<Seq<EntryModel>>::empty());
        assert(flat_entries(seq![ls[i]].drop_first()) == Seq::<EntryModel>::empty());
    }
    assert(flat_entries(ls) == flat_entries(ls.subrange(0, i)) + (ls[i] + flat_entries(
        ls.subrange(i + 1, ls.len() as int),
    )));
}

/// Law: the leaves of the tree carry exactly its entries, in order.
pub proof fn lemma_tree_leaves_cover(t: BPTree)
    ensures
        flat_entries(tree_leaves(t)) == tree_entries(t),
{
    match t.root {
        None => {
            assert(flat_entries(tree_leaves(t)) =~= tree_entries(t));
        },
        Some(n) => {
            lemma_flat_leaves(n);
        },
    }
}

/// Law: leaf link integrity. In a well-formed tree, every key of an
/// earlier leaf is strictly below every key of a later leaf; in
/// particular, the largest key of a leaf is below the smallest key of its
/// successor in the chain.
pub proof fn lemma_leaf_chain_ordered(t: BPTree, i: int, j: int)
    requires
        tree_wf(t),
        0 <= i < j < tree_leaves(t).len(),
        tree_leaves(t)[i].len() > 0,
        tree_leaves(t)[j].len() > 0,
    ensures
        val_lt(
            tree_leaves(t)[i][tree_leaves(t)[i].len() - 1].key,
            tree_leaves(t)[j][0].key,
        ),
{
    match t.root {
        None => {},
        Some(n) => {
            let ls = leaves_of(n);
            lemma_flat_leaves(n);
            lemma_node_sorted(n);
            let p = leaf_offset(ls, i) + ls[i].len() - 1;
            let q = leaf_offset(ls, j);
            lemma_flat_index(ls, i, ls[i].len() - 1);
            lemma_flat_index(ls, j, 0);
            lemma_offset_step(ls, i);
            lemma_offset_mono(ls, i + 1, j);
            assert(p < q);
            assert(flat_entries(ls)[p] == ls[i][ls[i].len() - 1]);
            assert(flat_entries(ls)[q] == ls[j][0]);
        },
    }
}

} // verus!
