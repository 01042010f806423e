//! Typed SQL values and the total order used by the primary-key index.
//!
//! A `TableValue` is one of the atomic SQL types. Its mathematical model is
//! `ValueModel`, which replaces machine types by unbounded integers and
//! character sequences. `Real` values carry the 32 bits of their IEEE-754
//! representation as a plain integer, so the logic itself stays free of
//! floating point; only the surrounding program interprets the bits.
use vstd::prelude::*;

verus! {

broadcast use vstd::utf8::char_u32_cast;

/// Mathematical model of a stored value.
pub enum ValueModel {
    Boolean(bool),
    Char(Seq<char>),
    Int(i32),
    Real(u32),
    Null,
}

/// A typed SQL value. `Real` holds the bit pattern of an IEEE-754 single.
#[derive(Debug, Clone, PartialEq, Eq)]
pub enum TableValue {
    Boolean(bool),
    Char(String),
    Int(i32),
    Real(u32),
    Null,
}

impl View for TableValue {
    type V = ValueModel;

    open spec fn view(&self) -> ValueModel {
        match self {
            TableValue::Boolean(b) => ValueModel::Boolean(*b),
            TableValue::Char(s) => ValueModel::Char(s@),
            TableValue::Int(i) => ValueModel::Int(*i),
            TableValue::Real(r) => ValueModel::Real(*r),
            TableValue::Null => ValueModel::Null,
        }
    }
}

impl DeepView for TableValue {
    type V = ValueModel;

    open spec fn deep_view(&self) -> ValueModel {
        self.view()
    }
}

/// Position of a variant in the cross-variant order. Values of one variant
/// always compare together in practice; the ranking merely makes the order
/// total.
pub open spec fn rank(v: ValueModel) -> int {
    match v {
        ValueModel::Boolean(_) => 0,
        ValueModel::Char(_) => 1,
        ValueModel::Int(_) => 2,
        ValueModel::Real(_) => 3,
        ValueModel::Null => 4,
    }
}

/// Strict lexicographic order on character sequences.
pub open spec fn chars_lt(a: Seq<char>, b: Seq<char>) -> bool
    decreases a.len(),
{
    if b.len() == 0 {
        false
    } else if a.len() == 0 {
        true
    } else if a[0] != b[0] {
        (a[0] as u32) < (b[0] as u32)
    } else {
        chars_lt(a.drop_first(), b.drop_first())
    }
}

/// Strict total order on value models: by variant rank, then by the natural
/// order within the variant.
pub open spec fn val_lt(a: ValueModel, b: ValueModel) -> bool {
    if rank(a) != rank(b) {
        rank(a) < rank(b)
    } else {
        match (a, b) {
            (ValueModel::Boolean(x), ValueModel::Boolean(y)) => !x && y,
            (ValueModel::Char(x), ValueModel::Char(y)) => chars_lt(x, y),
            (ValueModel::Int(x), ValueModel::Int(y)) => x < y,
            (ValueModel::Real(x), ValueModel::Real(y)) => x < y,
            _ => false,
        }
    }
}

pub open spec fn val_le(a: ValueModel, b: ValueModel) -> bool {
    val_lt(a, b) || a == b
}

pub proof fn lemma_chars_lt_trichotomy(a: Seq<char>, b: Seq<char>)
    ensures
        chars_lt(a, b) || a == b || chars_lt(b, a),
        chars_lt(a, b) ==> a != b && !chars_lt(b, a),
        a == b ==> !chars_lt(a, b),
    decreases a.len() + b.len(),
{
    if a.len() == 0 && b.len() == 0 {
        assert(a =~= b);
    } else if a.len() == 0 || b.len() == 0 {
        assert(chars_lt(a, b) || chars_lt(b, a));
    } else if a[0] != b[0] {
        vstd::utf8::char_u32_cast(a[0], a[0] as u32);
        vstd::utf8::char_u32_cast(b[0], b[0] as u32);
        assert(chars_lt(a, b) || chars_lt(b, a));
    } else {
        lemma_chars_lt_trichotomy(a.drop_first(), b.drop_first());
        if a.drop_first() == b.drop_first() {
            assert forall|k: int| 0 <= k < a.len() implies a[k] == b[k] by {
                if k > 0 {
                    assert(a[k] == a.drop_first()[k - 1]);
                    assert(b[k] == b.drop_first()[k - 1]);
                }
            }
            assert(a.len() == b.len());
            assert(a =~= b);
        }
    }
}

pub proof fn lemma_chars_lt_transitive(a: Seq<char>, b: Seq<char>, c: Seq<char>)
    requires
        chars_lt(a, b),
        chars_lt(b, c),
    ensures
        chars_lt(a, c),
    decreases a.len() + b.len() + c.len(),
{
    if a.len() != 0 && b.len() != 0 && c.len() != 0 && a[0] == b[0] && b[0] == c[0] {
        lemma_chars_lt_transitive(a.drop_first(), b.drop_first(), c.drop_first());
    }
}

/// The order on value models is a strict total order.
pub proof fn lemma_val_lt_trichotomy(a: ValueModel, b: ValueModel)
    ensures
        val_lt(a, b) || a == b || val_lt(b, a),
        val_lt(a, b) ==> a != b && !val_lt(b, a),
        a == b ==> !val_lt(a, b),
{
    match (a, b) {
        (ValueModel::Char(x), ValueModel::Char(y)) => {
            lemma_chars_lt_trichotomy(x, y);
        },
        _ => {},
    }
}

pub proof fn lemma_val_lt_transitive(a: ValueModel, b: ValueModel, c: ValueModel)
    requires
        val_lt(a, b),
        val_lt(b, c),
    ensures
        val_lt(a, c),
{
    match (a, b) {
        (ValueModel::Char(x), ValueModel::Char(y)) => {
            match c {
                ValueModel::Char(z) => {
                    lemma_chars_lt_transitive(x, y, z);
                },
                _ => {},
            }
        },
        _ => {},
    }
}

/// Compares the character sequences of two strings lexicographically.
fn str_cmp(a: &String, b: &String) -> (o: core::cmp::Ordering)
    ensures
        (o is Less) == chars_lt(a@, b@),
        (o is Equal) == (a@ == b@),
        (o is Greater) == chars_lt(b@, a@),
{
    let a_len = a.as_str().unicode_len();
    let b_len = b.as_str().unicode_len();
    let n: usize = if a_len < b_len {
        a_len
    } else {
        b_len
    };
    let mut i: usize = 0;
    while i < n
        invariant
            i <= n,
            n == if a_len < b_len { a_len } else { b_len },
            a_len == a@.len(),
            b_len == b@.len(),
            forall|j: int| 0 <= j < i ==> a@[j] == b@[j],
        decreases n - i,
    {
        let ca = a.as_str().get_char(i);
        let cb = b.as_str().get_char(i);
        if ca != cb {
            proof {
                lemma_chars_prefix_cmp(a@, b@, i as int);
                lemma_chars_lt_trichotomy(a@, b@);
            }
            if (ca as u32) < (cb as u32) {
                return core::cmp::Ordering::Less;
            } else {
                proof {
                    vstd::utf8::char_u32_cast(ca, ca as u32);
                    vstd::utf8::char_u32_cast(cb, cb as u32);
                }
                return core::cmp::Ordering::Greater;
            }
        }
        i = i + 1;
    }
    proof {
        lemma_chars_prefix_end(a@, b@);
        lemma_chars_lt_trichotomy(a@, b@);
    }
    if a_len < b_len {
        core::cmp::Ordering::Less
    } else if b_len < a_len {
        core::cmp::Ordering::Greater
    } else {
        assert(a@ =~= b@);
        core::cmp::Ordering::Equal
    }
}

/// If two sequences agree before position `i` and differ at `i`, the one
/// with the smaller character there is the lexicographically smaller one.
proof fn lemma_chars_prefix_cmp(a: Seq<char>, b: Seq<char>, i: int)
    requires
        0 <= i < a.len(),
        i < b.len(),
        forall|j: int| 0 <= j < i ==> a[j] == b[j],
        a[i] != b[i],
    ensures
        (a[i] as u32) < (b[i] as u32) ==> chars_lt(a, b),
        (b[i] as u32) < (a[i] as u32) ==> chars_lt(b, a),
    decreases i,
{
    if i == 0 {
    } else {
        let at = a.drop_first();
        let bt = b.drop_first();
        assert forall|j: int| 0 <= j < i - 1 implies #[trigger] at[j] == bt[j] by {
            assert(a[j + 1] == b[j + 1]);
        }
        assert(at[i - 1] == a[i]);
        assert(bt[i - 1] == b[i]);
        lemma_chars_prefix_cmp(at, bt, i - 1);
    }
}

/// If two sequences agree on their common length, the shorter one is the
/// lexicographically smaller one.
proof fn lemma_chars_prefix_end(a: Seq<char>, b: Seq<char>)
    requires
        forall|j: int| 0 <= j < a.len() && j < b.len() ==> a[j] == b[j],
    ensures
        a.len() < b.len() ==> chars_lt(a, b),
        b.len() < a.len() ==> chars_lt(b, a),
    decreases a.len() + b.len(),
{
    if a.len() != 0 && b.len() != 0 {
        let at = a.drop_first();
        let bt = b.drop_first();
        assert forall|j: int| 0 <= j < at.len() && j < bt.len() implies #[trigger] at[j]
            == bt[j] by {
            assert(a[j + 1] == b[j + 1]);
        }
        lemma_chars_prefix_end(at, bt);
    }
}

impl TableValue {
    /// Exact copy of the value; the copy has the same model.
    pub fn dup(&self) -> (r: TableValue)
        ensures
            r@ == self@,
    {
        match self {
            TableValue::Boolean(b) => TableValue::Boolean(*b),
            TableValue::Char(s) => TableValue::Char(s.clone()),
            TableValue::Int(i) => TableValue::Int(*i),
            TableValue::Real(r) => TableValue::Real(*r),
            TableValue::Null => TableValue::Null,
        }
    }

    /// Position of this value's variant in the cross-variant order.
    pub fn rank_of(&self) -> (r: u8)
        ensures
            r as int == rank(self@),
    {
        match self {
            TableValue::Boolean(_) => 0,
            TableValue::Char(_) => 1,
            TableValue::Int(_) => 2,
            TableValue::Real(_) => 3,
            TableValue::Null => 4,
        }
    }
}

/// Decides the strict total order on values: `Less` iff the first model is
/// smaller, `Equal` iff the models coincide.
pub fn value_cmp(a: &TableValue, b: &TableValue) -> (o: core::cmp::Ordering)
    ensures
        (o is Less) == val_lt(a@, b@),
        (o is Equal) == (a@ == b@),
        (o is Greater) == val_lt(b@, a@),
{
    let ra = a.rank_of();
    let rb = b.rank_of();
    if ra < rb {
        core::cmp::Ordering::Less
    } else if rb < ra {
        core::cmp::Ordering::Greater
    } else {
        match (a, b) {
            (TableValue::Boolean(x), TableValue::Boolean(y)) => {
                if *x == *y {
                    core::cmp::Ordering::Equal
                } else if !*x {
                    core::cmp::Ordering::Less
                } else {
                    core::cmp::Ordering::Greater
                }
            },
            (TableValue::Char(x), TableValue::Char(y)) => str_cmp(x, y),
            (TableValue::Int(x), TableValue::Int(y)) => {
                if *x < *y {
                    core::cmp::Ordering::Less
                } else if *y < *x {
                    core::cmp::Ordering::Greater
                } else {
                    core::cmp::Ordering::Equal
                }
            },
            (TableValue::Real(x), TableValue::Real(y)) => {
                if *x < *y {
                    core::cmp::Ordering::Less
                } else if *y < *x {
                    core::cmp::Ordering::Greater
                } else {
                    core::cmp::Ordering::Equal
                }
            },
            _ => core::cmp::Ordering::Equal,
        }
    }
}

/// Declared type of a column. `Char(n)` holds at most `n` characters.
#[derive(Debug, Clone, Copy, PartialEq, Eq)]
pub enum DataType {
    Boolean,
    Char(usize),
    Int,
    Real,
}

/// A value is admissible under a declared type when its variant matches the
/// type, or when it is `Null`. A `Char` value must also fit the capacity.
pub open spec fn model_matches_type(v: ValueModel, t: DataType) -> bool {
    match v {
        ValueModel::Boolean(_) => t is Boolean,
        ValueModel::Char(s) => t matches DataType::Char(n) && s.len() <= n,
        ValueModel::Int(_) => t is Int,
        ValueModel::Real(_) => t is Real,
        ValueModel::Null => true,
    }
}

/// Decides `model_matches_type` on a concrete value.
pub fn value_matches_type(v: &TableValue, t: &DataType) -> (r: bool)
    ensures
        r == model_matches_type(v@, *t),
{
    match (v, t) {
        (TableValue::Boolean(_), DataType::Boolean) => true,
        (TableValue::Char(s), DataType::Char(n)) => s.as_str().unicode_len() <= *n,
        (TableValue::Int(_), DataType::Int) => true,
        (TableValue::Real(_), DataType::Real) => true,
        (TableValue::Null, _) => true,
        _ => false,
    }
}

/// Model of a whole row: the models of its values, in order.
pub open spec fn row_model(r: Vec<TableValue>) -> Seq<ValueModel> {
    r.deep_view()
}

/// Exact copy of a row; the copy has the same model.
pub fn row_dup(r: &Vec<TableValue>) -> (d: Vec<TableValue>)
    ensures
        d.deep_view() == r.deep_view(),
{
    let mut d: Vec<TableValue> = Vec::new();
    let mut i: usize = 0;
    while i < r.len()
        invariant
            i <= r.len(),
            d.len() == i,
            forall|j: int| 0 <= j < i ==> d@[j]@ == r@[j]@,
        decreases r.len() - i,
    {
        d.push(r[i].dup());
        i = i + 1;
    }
    assert(d.deep_view() =~= r.deep_view());
    d
}


/// The ASCII lower-case form of a character: upper-case letters map to
/// their lower-case counterparts, everything else is unchanged.
pub open spec fn lower_char(c: char) -> char {
    if c == 'A' {
        'a'
    } else if c == 'B' {
        'b'
    } else if c == 'C' {
        'c'
    } else if c == 'D' {
        'd'
    } else if c == 'E' {
        'e'
    } else if c == 'F' {
        'f'
    } else if c == 'G' {
        'g'
    } else if c == 'H' {
        'h'
    } else if c == 'I' {
        'i'
    } else if c == 'J' {
        'j'
    } else if c == 'K' {
        'k'
    } else if c == 'L' {
        'l'
    } else if c == 'M' {
        'm'
    } else if c == 'N' {
        'n'
    } else if c == 'O' {
        'o'
    } else if c == 'P' {
        'p'
    } else if c == 'Q' {
        'q'
    } else if c == 'R' {
        'r'
    } else if c == 'S' {
        's'
    } else if c == 'T' {
        't'
    } else if c == 'U' {
        'u'
    } else if c == 'V' {
        'v'
    } else if c == 'W' {
        'w'
    } else if c == 'X' {
        'x'
    } else if c == 'Y' {
        'y'
    } else if c == 'Z' {
        'z'
    } else {
        c
    }
}

/// The ASCII lower-case form of a character sequence.
pub open spec fn lower_seq(s: Seq<char>) -> Seq<char> {
    Seq::new(s.len(), |i: int| lower_char(s[i]))
}

/// Computes the lower-case form of one character.
pub(crate) fn lower_char_of(c: char) -> (r: char)
    ensures
        r == lower_char(c),
{
    match c {
        'A' => 'a',
        'B' => 'b',
        'C' => 'c',
        'D' => 'd',
        'E' => 'e',
        'F' => 'f',
        'G' => 'g',
        'H' => 'h',
        'I' => 'i',
        'J' => 'j',
        'K' => 'k',
        'L' => 'l',
        'M' => 'm',
        'N' => 'n',
        'O' => 'o',
        'P' => 'p',
        'Q' => 'q',
        'R' => 'r',
        'S' => 's',
        'T' => 't',
        'U' => 'u',
        'V' => 'v',
        'W' => 'w',
        'X' => 'x',
        'Y' => 'y',
        'Z' => 'z',
        _ => c,
    }
}

/// Decides whether two strings are the same up to ASCII case.
pub fn str_eq_ignore_case(a: &String, b: &String) -> (r: bool)
    ensures
        r == (lower_seq(a@) == lower_seq(b@)),
{
    let a_len = a.as_str().unicode_len();
    let b_len = b.as_str().unicode_len();
    if a_len != b_len {
        proof {
            assert(lower_seq(a@).len() != lower_seq(b@).len());
        }
        return false;
    }
    let mut i: usize = 0;
    while i < a_len
        invariant
            i <= a_len,
            a_len == a@.len(),
            a_len == b@.len(),
            forall|j: int| 0 <= j < i ==> lower_char(a@[j]) == lower_char(b@[j]),
        decreases a_len - i,
    {
        let ca = lower_char_of(a.as_str().get_char(i));
        let cb = lower_char_of(b.as_str().get_char(i));
        if ca != cb {
            proof {
                assert(lower_seq(a@)[i as int] != lower_seq(b@)[i as int]);
            }
            return false;
        }
        i = i + 1;
    }
    proof {
        assert(lower_seq(a@) =~= lower_seq(b@));
    }
    true
}


/// Relies on `str::to_ascii_lowercase`: ASCII upper-case letters map to
/// their lower-case counterparts and every other character is unchanged,
/// which is exactly `lower_seq`.
#[verifier::external_body]
pub(crate) fn ascii_lowercase(s: &str) -> (r: String)
    ensures
        r@ == lower_seq(s@),
{
    s.to_ascii_lowercase()
}

/// Lower-casing is idempotent.
pub proof fn lemma_lower_idempotent(s: Seq<char>)
    ensures
        lower_seq(lower_seq(s)) == lower_seq(s),
{
    assert forall|i: int| 0 <= i < s.len() implies lower_seq(lower_seq(s))[i] == lower_seq(
        s,
    )[i] by {
        assert(lower_char(lower_char(s[i])) == lower_char(s[i]));
    }
    assert(lower_seq(lower_seq(s)) =~= lower_seq(s));
}

/// Lower-casing preserves the UTF-8 byte length: the letters it touches
/// are single-byte either way.
pub proof fn lemma_lower_utf8_len(s: Seq<char>)
    ensures
        vstd::utf8::encode_utf8(lower_seq(s)).len() == vstd::utf8::encode_utf8(s).len(),
    decreases s.len(),
{
    if s.len() != 0 {
        assert(lower_seq(s).len() == s.len());
        assert(lower_seq(s)[0] == lower_char(s[0]));
        assert(lower_seq(s).drop_first() =~= lower_seq(s.drop_first())) by {
            assert forall|i: int| 0 <= i < s.len() - 1 implies lower_seq(s).drop_first()[i]
                == lower_seq(s.drop_first())[i] by {
                assert(lower_seq(s).drop_first()[i] == lower_seq(s)[i + 1]);
                assert(s.drop_first()[i] == s[i + 1]);
            }
        }
        lemma_lower_utf8_len(s.drop_first());
        assert(vstd::utf8::encode_scalar(lower_char(s[0]) as u32).len()
            == vstd::utf8::encode_scalar(s[0] as u32).len()) by {
            if lower_char(s[0]) == s[0] {
            } else {
                assert((s[0] as u32) < 0x80 && (lower_char(s[0]) as u32) < 0x80);
            }
        }
        assert(vstd::utf8::encode_utf8(lower_seq(s)) == vstd::utf8::encode_scalar(
            lower_seq(s)[0] as u32,
        ) + vstd::utf8::encode_utf8(lower_seq(s).drop_first()));
    } else {
        assert(lower_seq(s) =~= Seq::<char>::empty());
    }
}

} // verus!
