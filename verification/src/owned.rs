//! The owned value: a YAML node tree that owns its strings, with the
//! accessors that read numbers, booleans and text out of it, and its
//! conversions to and from the borrowed form.
use vstd::prelude::*;

use std::borrow::Cow;
use std::cmp::Ordering;

use crate::patterns::{signed_parse_wide, unsigned_parse};
use crate::text::{push_decimal_wide, push_signed_decimal_wide};
use crate::value::{
    all_borrowed, chars_three_way, float_total_order, integer_node, items_model, list_order, node_order,
    ordering_of, pairs_model, pairs_order, rank, BorrowedValue, Node,
};

verus! {

/// A YAML node that owns its strings. Floats are carried as the bit
/// pattern of an IEEE-754 double.
#[derive(Debug, PartialEq)]
pub enum Value {
    Null,
    Bool(bool),
    Int(i64),
    Float(u64),
    String(String),
    Sequence(Vec<Value>),
    Mapping(Vec<(Value, Value)>),
    Tagged(String, Box<Value>),
}

impl Value {
    /// The model of this value.
    pub open spec fn model(&self) -> Node
        decreases self,
    {
        match self {
            Value::Null => Node::Null,
            Value::Bool(b) => Node::Bool(*b),
            Value::Int(n) => Node::Int(*n as int),
            Value::Float(f) => Node::Float(*f),
            Value::String(s) => Node::Str(s@),
            Value::Sequence(items) => Node::List(Seq::new(items.len() as nat, |i: int| {
                if 0 <= i < items.len() { items@[i].model() } else { Node::Null }
            })),
            Value::Mapping(pairs) => Node::Pairs(Seq::new(pairs.len() as nat, |i: int| {
                if 0 <= i < pairs.len() { (pairs@[i].0.model(), pairs@[i].1.model()) } else { (Node::Null, Node::Null) }
            })),
            Value::Tagged(t, inner) => Node::Tagged(t@, Box::new(inner.model())),
        }
    }
}

/// The models of a run of owned values.
pub open spec fn owned_items_model(v: Seq<Value>) -> Seq<Node> {
    Seq::new(v.len(), |i: int| v[i].model())
}

/// The models of a run of owned key/value pairs.
pub open spec fn owned_pairs_model(v: Seq<(Value, Value)>) -> Seq<(Node, Node)> {
    Seq::new(v.len(), |i: int| (v[i].0.model(), v[i].1.model()))
}

pub proof fn lemma_owned_containers(v: &Value)
    ensures
        v matches Value::Sequence(items) ==> v.model() == Node::List(owned_items_model(items@)),
        v matches Value::Mapping(pairs) ==> v.model() == Node::Pairs(owned_pairs_model(pairs@)),
{
    match v {
        Value::Sequence(items) => {
            assert(v.model()->List_0 =~= owned_items_model(items@));
        },
        Value::Mapping(pairs) => {
            assert(v.model()->Pairs_0 =~= owned_pairs_model(pairs@));
        },
        _ => {},
    }
}

/// The rank of an owned value's kind (see [`rank`]).
pub fn owned_rank(v: &Value) -> (r: u8)
    ensures
        r as nat == rank(v.model()),
{
    match v {
        Value::Null => 0,
        Value::Bool(_) => 1,
        Value::Int(_) => 2,
        Value::Float(_) => 4,
        Value::String(_) => 5,
        Value::Sequence(_) => 6,
        Value::Mapping(_) => 7,
        Value::Tagged(_, _) => 8,
    }
}

/// The three-way comparison of two values under [`node_order`], for owned values.
#[verifier::loop_isolation(false)]
pub fn compare_owned(a: &Value, b: &Value) -> (r: i8)
    ensures
        r as int == node_order(a.model(), b.model()),
    decreases a,
{
    let ra = owned_rank(a);
    let rb = owned_rank(b);
    if ra != rb {
        return if ra < rb { -1 } else { 1 };
    }
    match a {
        Value::Null => 0,
        Value::Bool(x) => match b {
            Value::Bool(y) => if *x == *y { 0 } else if !*x { -1 } else { 1 },
            _ => 0,
        },
        Value::Int(x) => match b {
            Value::Int(y) => if *x < *y { -1 } else if *x == *y { 0 } else { 1 },
            _ => 0,
        },
        Value::Float(x) => match b {
            Value::Float(y) => float_total_order(*x, *y),
            _ => 0,
        },
        Value::String(x) => match b {
            Value::String(y) => chars_three_way(x.as_str(), y.as_str()),
            _ => 0,
        },
        Value::Sequence(xs) => match b {
            Value::Sequence(ys) => {
                proof {
                    lemma_owned_containers(a);
                    lemma_owned_containers(b);
                }
                let ghost mx = owned_items_model(xs@);
                let ghost my = owned_items_model(ys@);
                let mut i: usize = 0;
                while i < xs.len() && i < ys.len()
                    invariant
                        mx == owned_items_model(xs@),
                        my == owned_items_model(ys@),
                        i <= xs.len(),
                        i <= ys.len(),
                        list_order(mx, my, 0) == list_order(mx, my, i as int),
                    decreases xs.len() - i,
                {
                    proof { vstd::std_specs::vec::axiom_vec_index_decreases(*xs, i as int); }
                    let c = compare_owned(&xs[i], &ys[i]);
                    if c != 0 {
                        return c;
                    }
                    i = i + 1;
                }
                if xs.len() < ys.len() { -1 } else if xs.len() == ys.len() { 0 } else { 1 }
            },
            _ => 0,
        },
        Value::Mapping(xs) => match b {
            Value::Mapping(ys) => {
                proof {
                    lemma_owned_containers(a);
                    lemma_owned_containers(b);
                }
                let ghost mx = owned_pairs_model(xs@);
                let ghost my = owned_pairs_model(ys@);
                let mut i: usize = 0;
                while i < xs.len() && i < ys.len()
                    invariant
                        mx == owned_pairs_model(xs@),
                        my == owned_pairs_model(ys@),
                        i <= xs.len(),
                        i <= ys.len(),
                        pairs_order(mx, my, 0) == pairs_order(mx, my, i as int),
                    decreases xs.len() - i,
                {
                    proof {
                        vstd::std_specs::vec::axiom_vec_index_decreases(*xs, i as int);
                        assert(decreases_to!(xs@[i as int] => xs@[i as int].0));
                        assert(decreases_to!(xs@[i as int] => xs@[i as int].1));
                    }
                    let ck = compare_owned(&xs[i].0, &ys[i].0);
                    if ck != 0 {
                        return ck;
                    }
                    let cv = compare_owned(&xs[i].1, &ys[i].1);
                    if cv != 0 {
                        return cv;
                    }
                    i = i + 1;
                }
                if xs.len() < ys.len() { -1 } else if xs.len() == ys.len() { 0 } else { 1 }
            },
            _ => 0,
        },
        Value::Tagged(tx, ix) => match b {
            Value::Tagged(ty, iy) => {
                let c = chars_three_way(tx.as_str(), ty.as_str());
                if c != 0 {
                    c
                } else {
                    compare_owned(ix, iy)
                }
            },
            _ => 0,
        },
    }
}

impl Value {
    /// The total order on values (see [`node_order`]).
    pub fn cmp(&self, other: &Value) -> (r: Ordering)
        ensures
            r == ordering_of(node_order(self.model(), other.model())),
    {
        let c = compare_owned(self, other);
        if c < 0 {
            Ordering::Less
        } else if c == 0 {
            Ordering::Equal
        } else {
            Ordering::Greater
        }
    }
}

impl Value {
    /// Equality under the order: the two values have the same model.
    pub fn equals(&self, other: &Value) -> (r: bool)
        ensures
            r == (self.model() == other.model()),
    {
        let c = compare_owned(self, other);
        proof {
            if c == 0 {
                crate::order_laws::order_equal_is_identity(self.model(), other.model());
            }
            if self.model() == other.model() {
                crate::order_laws::order_reflexive(self.model());
            }
        }
        c == 0
    }
}

/// Whether a node counts as true: a true boolean, a non-zero number (NaN
/// included), a non-empty string, sequence or mapping; a tagged node as its
/// value; null as false.
pub open spec fn node_truthy(n: Node) -> bool
    decreases n,
{
    match n {
        Node::Null => false,
        Node::Bool(b) => b,
        Node::Int(i) => i != 0,
        Node::Float(f) => !(f == 0 || f == 0x8000_0000_0000_0000),
        Node::Str(s) => s.len() > 0,
        Node::List(xs) => xs.len() > 0,
        Node::Pairs(xs) => xs.len() > 0,
        Node::Tagged(_, inner) => node_truthy(*inner),
    }
}

/// A value counts as false exactly when it is null, `false`, the integer
/// zero, a zero double of either sign, or an empty string, sequence or
/// mapping, or when it is a tag on such a value; any other value counts as
/// true.
pub proof fn falsy_means_empty_or_zero(n: Node)
    ensures
        !node_truthy(n) <==> ({
            ||| n is Null
            ||| n == Node::Bool(false)
            ||| n == Node::Int(0)
            ||| n == Node::Float(0) || n == Node::Float(0x8000_0000_0000_0000)
            ||| n matches Node::Str(s) && s.len() == 0
            ||| n matches Node::List(xs) && xs.len() == 0
            ||| n matches Node::Pairs(ps) && ps.len() == 0
            ||| n matches Node::Tagged(_, inner) && !node_truthy(*inner)
        }),
{
}

impl Value {
    /// The integer, for an integer.
    pub fn as_i64(&self) -> (r: Option<i64>)
        ensures
            r == match self {
                Value::Int(n) => Some(*n),
                _ => None::<i64>,
            },
    {
        if let Value::Int(n) = self {
            Some(*n)
        } else {
            None
        }
    }

    /// The value as a `u64`: a non-negative integer, or a string that parses
    /// as a `u64` (how integers beyond `i64` are kept).
    pub fn as_u64(&self) -> (r: Option<u64>)
        ensures
            match self {
                Value::Int(n) => r == if *n >= 0 { Some(*n as u64) } else { None },
                Value::String(s) => match unsigned_parse(s@, 10) {
                    Some(v) => r == Some(v as u64),
                    None => r is None,
                },
                _ => r is None,
            },
    {
        match self {
            Value::Int(n) => if *n >= 0 { Some(*n as u64) } else { None },
            Value::String(s) => crate::patterns::parse_u64(s.as_str()),
            _ => None,
        }
    }

    /// The value as an `i128`: an integer, or a string that parses as an
    /// `i128`.
    pub fn as_i128(&self) -> (r: Option<i128>)
        ensures
            match self {
                Value::Int(n) => r == Some(*n as i128),
                Value::String(s) => match signed_parse_wide(s@) {
                    Some(v) => r == Some(v as i128),
                    None => r is None,
                },
                _ => r is None,
            },
    {
        match self {
            Value::Int(n) => Some(*n as i128),
            Value::String(s) => crate::patterns::parse_i128(s.as_str()),
            _ => None,
        }
    }

    /// Whether the value counts as true (see [`node_truthy`]).
    pub fn truthy(&self) -> (r: bool)
        ensures
            r == node_truthy(self.model()),
            self is Null ==> !r,
            self matches Value::Bool(b) ==> r == b,
            self matches Value::Int(n) ==> r == (n != 0),
            self matches Value::String(s) ==> r == (s@.len() > 0),
            self matches Value::Sequence(xs) ==> r == (xs.len() > 0),
            self matches Value::Mapping(m) ==> r == (m.len() > 0),
        decreases self,
    {
        proof { lemma_owned_containers(self); }
        match self {
            Value::Bool(b) => *b,
            Value::Int(n) => *n != 0,
            Value::Float(f) => !(*f == 0 || *f == 0x8000_0000_0000_0000u64),
            Value::String(s) => !s.as_str().is_empty(),
            Value::Null => false,
            Value::Mapping(m) => m.len() > 0,
            Value::Sequence(xs) => xs.len() > 0,
            Value::Tagged(_, v) => v.truthy(),
        }
    }

    /// The boolean, for a boolean.
    pub fn as_bool(&self) -> (r: Option<bool>)
        ensures
            r == match self {
                Value::Bool(b) => Some(*b),
                _ => None::<bool>,
            },
    {
        match self {
            Value::Bool(b) => Some(*b),
            _ => None,
        }
    }

    /// The text, for a string.
    pub fn as_str(&self) -> (r: Option<&str>)
        ensures
            match self {
                Value::String(s) => r is Some && r.unwrap()@ == s@,
                _ => r is None,
            },
    {
        match self {
            Value::String(s) => Some(s.as_str()),
            _ => None,
        }
    }

    pub fn is_null(&self) -> (r: bool)
        ensures
            r == (self is Null),
    {
        matches!(self, Value::Null)
    }

    pub fn is_integer(&self) -> (r: bool)
        ensures
            r == (self is Int),
    {
        matches!(self, Value::Int(_))
    }

    pub fn is_numeric(&self) -> (r: bool)
        ensures
            r == (self is Int || self is Float),
    {
        matches!(self, Value::Int(_) | Value::Float(_))
    }

    pub fn is_map(&self) -> (r: bool)
        ensures
            r == (self is Mapping),
    {
        matches!(self, Value::Mapping(_))
    }

    pub fn is_seq(&self) -> (r: bool)
        ensures
            r == (self is Sequence),
    {
        matches!(self, Value::Sequence(_))
    }
}

impl Value {
    /// A `u64` as a value (see [`integer_node`]).
    pub fn from_u64(n: u64) -> (r: Value)
        ensures
            r.model() == integer_node(n as int),
    {
        Value::from_u128(n as u128)
    }

    /// A `u128` as a value (see [`integer_node`]).
    pub fn from_u128(n: u128) -> (r: Value)
        ensures
            r.model() == integer_node(n as int),
    {
        if n <= 0x7fff_ffff_ffff_ffffu128 {
            Value::Int(n as i64)
        } else {
            let mut s = String::new();
            push_decimal_wide(&mut s, n);
            Value::String(s)
        }
    }

    /// An `i128` as a value (see [`integer_node`]).
    pub fn from_i128(n: i128) -> (r: Value)
        ensures
            r.model() == integer_node(n as int),
    {
        if -0x8000_0000_0000_0000i128 <= n && n <= 0x7fff_ffff_ffff_ffffi128 {
            Value::Int(n as i64)
        } else {
            let mut s = String::new();
            push_signed_decimal_wide(&mut s, n);
            Value::String(s)
        }
    }

    /// A string slice as a string value.
    pub fn from_text(t: &str) -> (r: Value)
        ensures
            r.model() == Node::Str(t@),
    {
        Value::String(String::from_str(t))
    }
}

impl From<bool> for Value {
    fn from(b: bool) -> (r: Value) {
        Value::Bool(b)
    }
}

impl vstd::std_specs::convert::FromSpecImpl<bool> for Value {
    open spec fn obeys_from_spec() -> bool {
        true
    }

    open spec fn from_spec(b: bool) -> Value {
        Value::Bool(b)
    }
}

impl From<i64> for Value {
    fn from(n: i64) -> (r: Value) {
        Value::Int(n)
    }
}

impl vstd::std_specs::convert::FromSpecImpl<i64> for Value {
    open spec fn obeys_from_spec() -> bool {
        true
    }

    open spec fn from_spec(n: i64) -> Value {
        Value::Int(n)
    }
}

impl From<i32> for Value {
    fn from(n: i32) -> (r: Value) {
        Value::Int(n as i64)
    }
}

impl vstd::std_specs::convert::FromSpecImpl<i32> for Value {
    open spec fn obeys_from_spec() -> bool {
        true
    }

    open spec fn from_spec(n: i32) -> Value {
        Value::Int(n as i64)
    }
}

impl From<i16> for Value {
    fn from(n: i16) -> (r: Value) {
        Value::Int(n as i64)
    }
}

impl vstd::std_specs::convert::FromSpecImpl<i16> for Value {
    open spec fn obeys_from_spec() -> bool {
        true
    }

    open spec fn from_spec(n: i16) -> Value {
        Value::Int(n as i64)
    }
}

impl From<i8> for Value {
    fn from(n: i8) -> (r: Value) {
        Value::Int(n as i64)
    }
}

impl vstd::std_specs::convert::FromSpecImpl<i8> for Value {
    open spec fn obeys_from_spec() -> bool {
        true
    }

    open spec fn from_spec(n: i8) -> Value {
        Value::Int(n as i64)
    }
}

impl From<u32> for Value {
    fn from(n: u32) -> (r: Value) {
        Value::Int(n as i64)
    }
}

impl vstd::std_specs::convert::FromSpecImpl<u32> for Value {
    open spec fn obeys_from_spec() -> bool {
        true
    }

    open spec fn from_spec(n: u32) -> Value {
        Value::Int(n as i64)
    }
}

impl From<u16> for Value {
    fn from(n: u16) -> (r: Value) {
        Value::Int(n as i64)
    }
}

impl vstd::std_specs::convert::FromSpecImpl<u16> for Value {
    open spec fn obeys_from_spec() -> bool {
        true
    }

    open spec fn from_spec(n: u16) -> Value {
        Value::Int(n as i64)
    }
}

impl From<u8> for Value {
    fn from(n: u8) -> (r: Value) {
        Value::Int(n as i64)
    }
}

impl vstd::std_specs::convert::FromSpecImpl<u8> for Value {
    open spec fn obeys_from_spec() -> bool {
        true
    }

    open spec fn from_spec(n: u8) -> Value {
        Value::Int(n as i64)
    }
}

impl From<String> for Value {
    fn from(s: String) -> (r: Value) {
        Value::String(s)
    }
}

impl vstd::std_specs::convert::FromSpecImpl<String> for Value {
    open spec fn obeys_from_spec() -> bool {
        true
    }

    open spec fn from_spec(s: String) -> Value {
        Value::String(s)
    }
}

/// The owned copy of a borrowed string.
fn owned_text(c: Cow<'_, str>) -> (r: String)
    ensures
        r@ == c@,
{
    match c {
        Cow::Borrowed(b) => String::from_str(b),
        Cow::Owned(o) => o,
    }
}

impl Value {
    /// The owned form of a borrowed value: the same model, with every
    /// borrowed string copied.
    #[verifier::loop_isolation(false)]
    pub fn from_borrowed(v: BorrowedValue<'_>) -> (r: Value)
        ensures
            r.model() == v.model(),
        decreases v,
    {
        let ghost vm = v.model();
        proof { crate::value::lemma_model_containers(&v); }
        match v {
            BorrowedValue::Null => Value::Null,
            BorrowedValue::Bool(b) => Value::Bool(b),
            BorrowedValue::Int(n) => Value::Int(n),
            BorrowedValue::Float(f) => Value::Float(f),
            BorrowedValue::String(c) => Value::String(owned_text(c)),
            BorrowedValue::Tagged(t, inner) => Value::Tagged(owned_text(t), Box::new(Value::from_borrowed(*inner))),
            BorrowedValue::Sequence(items) => {
                let ghost iv = items;
                let ghost i0 = items@;
                let mut items = items;
                let n = items.len();
                let mut out: Vec<Value> = Vec::new();
                let mut i: usize = 0;
                while i < n
                    invariant
                        n == items.len(),
                        n == i0.len(),
                        i <= n,
                        forall|j: int| i <= j < n ==> items@[j] == i0[j],
                        out.len() == i,
                        forall|j: int| 0 <= j < i ==> #[trigger] out@[j].model() == i0[j].model(),
                    decreases n - i,
                {
                    let mut taken = BorrowedValue::Null;
                    std::mem::swap(&mut taken, &mut items[i]);
                    proof {
                        vstd::std_specs::vec::axiom_vec_index_decreases(iv, i as int);
                        assert(decreases_to!(v => iv));
                        assert(decreases_to!(v => i0[i as int]));
                    }
                    out.push(Value::from_borrowed(taken));
                    i = i + 1;
                }
                let r = Value::Sequence(out);
                proof {
                    lemma_owned_containers(&r);
                    assert(owned_items_model(out@) =~= items_model(i0));
                }
                r
            },
            BorrowedValue::Mapping(pairs) => {
                let ghost pv = pairs;
                let ghost p0 = pairs@;
                let mut pairs = pairs;
                let n = pairs.len();
                let mut out: Vec<(Value, Value)> = Vec::new();
                let mut i: usize = 0;
                while i < n
                    invariant
                        n == pairs.len(),
                        n == p0.len(),
                        i <= n,
                        forall|j: int| i <= j < n ==> pairs@[j] == p0[j],
                        out.len() == i,
                        forall|j: int| 0 <= j < i ==> #[trigger] out@[j].0.model() == p0[j].0.model() && out@[j].1.model() == p0[j].1.model(),
                    decreases n - i,
                {
                    let mut taken = (BorrowedValue::Null, BorrowedValue::Null);
                    std::mem::swap(&mut taken, &mut pairs[i]);
                    let (k, val) = taken;
                    proof {
                        vstd::std_specs::vec::axiom_vec_index_decreases(pv, i as int);
                        assert(decreases_to!(v => pv));
                        assert(decreases_to!(pv => pv[i as int]));
                        assert(decreases_to!(pv[i as int] => pv[i as int].0));
                        assert(decreases_to!(v => p0[i as int].0));
                        assert(decreases_to!(v => p0[i as int].1));
                    }
                    let ok = Value::from_borrowed(k);
                    let ov = Value::from_borrowed(val);
                    out.push((ok, ov));
                    i = i + 1;
                }
                let r = Value::Mapping(out);
                proof {
                    lemma_owned_containers(&r);
                    assert(owned_pairs_model(out@) =~= pairs_model(p0));
                }
                r
            },
        }
    }
}

impl<'a> BorrowedValue<'a> {
    /// A borrowed view of an owned value: the same model, every string
    /// borrowed from `v`, nothing copied.
    #[verifier::loop_isolation(false)]
    pub fn borrowing(v: &'a Value) -> (r: BorrowedValue<'a>)
        ensures
            r.model() == v.model(),
            all_borrowed(r),
        decreases v,
    {
        proof { lemma_owned_containers(v); }
        match v {
            Value::Null => BorrowedValue::Null,
            Value::Bool(b) => BorrowedValue::Bool(*b),
            Value::Int(n) => BorrowedValue::Int(*n),
            Value::Float(f) => BorrowedValue::Float(*f),
            Value::String(s) => BorrowedValue::String(Cow::Borrowed(s.as_str())),
            Value::Tagged(t, inner) => BorrowedValue::Tagged(Cow::Borrowed(t.as_str()), Box::new(BorrowedValue::borrowing(inner))),
            Value::Sequence(items) => {
                let mut out: Vec<BorrowedValue<'a>> = Vec::new();
                let mut i: usize = 0;
                while i < items.len()
                    invariant
                        i <= items.len(),
                        out.len() == i,
                        forall|j: int| 0 <= j < i ==> #[trigger] out@[j].model() == items@[j].model(),
                        forall|j: int| 0 <= j < i ==> all_borrowed(#[trigger] out@[j]),
                    decreases items.len() - i,
                {
                    proof { vstd::std_specs::vec::axiom_vec_index_decreases(*items, i as int); }
                    out.push(BorrowedValue::borrowing(&items[i]));
                    i = i + 1;
                }
                let r = BorrowedValue::Sequence(out);
                proof {
                    crate::value::lemma_model_containers(&r);
                    assert(items_model(out@) =~= owned_items_model(items@));
                }
                r
            },
            Value::Mapping(pairs) => {
                let mut out: Vec<(BorrowedValue<'a>, BorrowedValue<'a>)> = Vec::new();
                let mut i: usize = 0;
                while i < pairs.len()
                    invariant
                        i <= pairs.len(),
                        out.len() == i,
                        forall|j: int| 0 <= j < i ==> #[trigger] out@[j].0.model() == pairs@[j].0.model() && out@[j].1.model() == pairs@[j].1.model(),
                        forall|j: int| 0 <= j < i ==> all_borrowed(#[trigger] out@[j].0) && all_borrowed(out@[j].1),
                    decreases pairs.len() - i,
                {
                    proof {
                        vstd::std_specs::vec::axiom_vec_index_decreases(*pairs, i as int);
                        assert(decreases_to!(pairs@[i as int] => pairs@[i as int].0));
                        assert(decreases_to!(pairs@[i as int] => pairs@[i as int].1));
                    }
                    let k = BorrowedValue::borrowing(&pairs[i].0);
                    let val = BorrowedValue::borrowing(&pairs[i].1);
                    out.push((k, val));
                    i = i + 1;
                }
                let r = BorrowedValue::Mapping(out);
                proof {
                    crate::value::lemma_model_containers(&r);
                    assert(pairs_model(out@) =~= owned_pairs_model(pairs@));
                }
                r
            },
        }
    }
}

impl<'a> From<&'a Value> for BorrowedValue<'a> {
    /// See [`BorrowedValue::borrowing`].
    fn from(v: &'a Value) -> (r: BorrowedValue<'a>)
        ensures
            r.model() == v.model(),
            all_borrowed(r),
    {
        BorrowedValue::borrowing(v)
    }
}

/// A borrowed view is not a function of the owned value's model alone (its
/// borrows point into that value), so no spec function names it; the
/// contract of `from` above says what it is.
impl<'a> vstd::std_specs::convert::FromSpecImpl<&'a Value> for BorrowedValue<'a> {
    open spec fn obeys_from_spec() -> bool {
        false
    }

    open spec fn from_spec(v: &'a Value) -> BorrowedValue<'a> {
        BorrowedValue::Null
    }
}

impl<'a> From<BorrowedValue<'a>> for Value {
    /// See [`Value::from_borrowed`].
    fn from(v: BorrowedValue<'a>) -> (r: Value)
        ensures
            r.model() == v.model(),
    {
        Value::from_borrowed(v)
    }
}

/// An owned copy is told apart by its model only (see [`Value::model`]), so
/// no spec function names it; the contract of `from` above says what it is.
impl<'a> vstd::std_specs::convert::FromSpecImpl<BorrowedValue<'a>> for Value {
    open spec fn obeys_from_spec() -> bool {
        false
    }

    open spec fn from_spec(v: BorrowedValue<'a>) -> Value {
        Value::Null
    }
}

} // verus!
