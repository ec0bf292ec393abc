//! The dynamic data model: a YAML node tree whose strings may borrow from
//! the source text, its mathematical model, and the total order on nodes.
use vstd::prelude::*;

use std::borrow::Cow;
use std::cmp::Ordering;

use crate::text::{cow_text, push_decimal_wide, push_signed_decimal_wide, signed_decimal, str_chars};

verus! {

/// A YAML node whose strings and tags may borrow from the text it was read
/// from. Floats are carried as the bit pattern of an IEEE-754 double, by
/// which they are ordered and compared; `Tagged` holds a value under a
/// non-standard tag such as `!myapp/Thing`.
#[derive(Debug, PartialEq)]
pub enum BorrowedValue<'a> {
    Null,
    Bool(bool),
    Int(i64),
    Float(u64),
    String(Cow<'a, str>),
    Sequence(Vec<BorrowedValue<'a>>),
    Mapping(Vec<(BorrowedValue<'a>, BorrowedValue<'a>)>),
    Tagged(Cow<'a, str>, Box<BorrowedValue<'a>>),
}

/// The mathematical model of a value: strings as character sequences,
/// containers as sequences of models.
pub enum Node {
    Null,
    Bool(bool),
    Int(int),
    Float(u64),
    Str(Seq<char>),
    List(Seq<Node>),
    Pairs(Seq<(Node, Node)>),
    Tagged(Seq<char>, Box<Node>),
}

impl<'a> BorrowedValue<'a> {
    /// The model of this value.
    pub open spec fn model(&self) -> Node
        decreases self,
    {
        match self {
            BorrowedValue::Null => Node::Null,
            BorrowedValue::Bool(b) => Node::Bool(*b),
            BorrowedValue::Int(n) => Node::Int(*n as int),
            BorrowedValue::Float(f) => Node::Float(*f),
            BorrowedValue::String(s) => Node::Str(s@),
            BorrowedValue::Sequence(items) => Node::List(Seq::new(items.len() as nat, |i: int| {
                if 0 <= i < items.len() { items@[i].model() } else { Node::Null }
            })),
            BorrowedValue::Mapping(pairs) => Node::Pairs(Seq::new(pairs.len() as nat, |i: int| {
                if 0 <= i < pairs.len() { (pairs@[i].0.model(), pairs@[i].1.model()) } else { (Node::Null, Node::Null) }
            })),
            BorrowedValue::Tagged(t, inner) => Node::Tagged(t@, Box::new(inner.model())),
        }
    }
}

/// The models of a run of values.
pub open spec fn items_model<'a>(v: Seq<BorrowedValue<'a>>) -> Seq<Node> {
    Seq::new(v.len(), |i: int| v[i].model())
}

/// The models of a run of key/value pairs.
pub open spec fn pairs_model<'a>(v: Seq<(BorrowedValue<'a>, BorrowedValue<'a>)>) -> Seq<(Node, Node)> {
    Seq::new(v.len(), |i: int| (v[i].0.model(), v[i].1.model()))
}

pub proof fn lemma_model_containers<'a>(v: &BorrowedValue<'a>)
    ensures
        v matches BorrowedValue::Sequence(items) ==> v.model() == Node::List(items_model(items@)),
        v matches BorrowedValue::Mapping(pairs) ==> v.model() == Node::Pairs(pairs_model(pairs@)),
{
    match v {
        BorrowedValue::Sequence(items) => {
            assert(v.model()->List_0 =~= items_model(items@));
        },
        BorrowedValue::Mapping(pairs) => {
            assert(v.model()->Pairs_0 =~= pairs_model(pairs@));
        },
        _ => {},
    }
}

/// The rank by which nodes of different kinds are ordered: simpler kinds
/// first.
pub open spec fn rank(n: Node) -> nat {
    match n {
        Node::Null => 0,
        Node::Bool(_) => 1,
        Node::Int(_) => 2,
        Node::Float(_) => 4,
        Node::Str(_) => 5,
        Node::List(_) => 6,
        Node::Pairs(_) => 7,
        Node::Tagged(_, _) => 8,
    }
}

/// The three-way comparison of two integers: -1, 0 or 1 as `a` is less
/// than, equal to or greater than `b`.
pub open spec fn int_order(a: int, b: int) -> int {
    if a < b {
        -1
    } else if a == b {
        0
    } else {
        1
    }
}

/// The `Ordering` for a three-way comparison result.
pub open spec fn ordering_of(c: int) -> Ordering {
    if c < 0 {
        Ordering::Less
    } else if c == 0 {
        Ordering::Equal
    } else {
        Ordering::Greater
    }
}

/// The key by which IEEE-754 `totalOrder` ranks a double's bit pattern: its
/// bits for a positive sign, and below every positive key, in reverse, for a
/// negative sign.
pub open spec fn float_key(b: u64) -> int {
    if b < 0x8000_0000_0000_0000 { b as int } else { 0x7fff_ffff_ffff_ffff - b }
}

/// Lexicographic comparison of character sequences from `i` on, by code
/// point; a proper prefix comes first.
pub open spec fn chars_order(a: Seq<char>, b: Seq<char>, i: int) -> int
    decreases a.len() - i,
{
    if i < 0 || i >= a.len() || i >= b.len() {
        int_order(a.len() as int, b.len() as int)
    } else if a[i] != b[i] {
        int_order((a[i] as u32) as int, (b[i] as u32) as int)
    } else {
        chars_order(a, b, i + 1)
    }
}

/// The total order on nodes: by rank across kinds; within a kind, booleans
/// with `false` first, integers numerically, floats by `totalOrder`,
/// strings and tags lexicographically, sequences and mappings element by
/// element (pairs by key, then value).
pub open spec fn node_order(a: Node, b: Node) -> int
    decreases a, 0int,
{
    if rank(a) != rank(b) {
        int_order(rank(a) as int, rank(b) as int)
    } else {
        match (a, b) {
            (Node::Bool(x), Node::Bool(y)) => int_order(if x { 1 } else { 0 }, if y { 1 } else { 0 }),
            (Node::Int(x), Node::Int(y)) => int_order(x, y),
            (Node::Float(x), Node::Float(y)) => int_order(float_key(x), float_key(y)),
            (Node::Str(x), Node::Str(y)) => chars_order(x, y, 0),
            (Node::List(xs), Node::List(ys)) => list_order(xs, ys, 0),
            (Node::Pairs(xs), Node::Pairs(ys)) => pairs_order(xs, ys, 0),
            (Node::Tagged(tx, ix), Node::Tagged(ty, iy)) => {
                let c = chars_order(tx, ty, 0);
                if c != 0 { c } else { node_order(*ix, *iy) }
            },
            _ => 0,
        }
    }
}

/// Element-by-element comparison of node sequences from `i` on.
pub open spec fn list_order(xs: Seq<Node>, ys: Seq<Node>, i: int) -> int
    decreases xs, xs.len() - i,
{
    if i < 0 || i >= xs.len() || i >= ys.len() {
        int_order(xs.len() as int, ys.len() as int)
    } else {
        let c = node_order(xs[i], ys[i]);
        if c != 0 { c } else { list_order(xs, ys, i + 1) }
    }
}

/// Pair-by-pair comparison of mappings from `i` on.
pub open spec fn pairs_order(xs: Seq<(Node, Node)>, ys: Seq<(Node, Node)>, i: int) -> int
    decreases xs, xs.len() - i,
{
    if i < 0 || i >= xs.len() || i >= ys.len() {
        int_order(xs.len() as int, ys.len() as int)
    } else {
        let ck = node_order(xs[i].0, ys[i].0);
        if ck != 0 {
            ck
        } else {
            let cv = node_order(xs[i].1, ys[i].1);
            if cv != 0 { cv } else { pairs_order(xs, ys, i + 1) }
        }
    }
}

/// The rank of a value's kind (see [`rank`]).
pub fn discriminant_rank(v: &BorrowedValue<'_>) -> (r: u8)
    ensures
        r as nat == rank(v.model()),
{
    match v {
        BorrowedValue::Null => 0,
        BorrowedValue::Bool(_) => 1,
        BorrowedValue::Int(_) => 2,
        BorrowedValue::Float(_) => 4,
        BorrowedValue::String(_) => 5,
        BorrowedValue::Sequence(_) => 6,
        BorrowedValue::Mapping(_) => 7,
        BorrowedValue::Tagged(_, _) => 8,
    }
}

pub(crate) fn three_way_u64(a: u64, b: u64) -> (r: i8)
    ensures
        r as int == int_order(a as int, b as int),
{
    if a < b { -1 } else if a == b { 0 } else { 1 }
}

/// IEEE-754 `totalOrder` on two doubles given by their bits.
pub(crate) fn float_total_order(a: u64, b: u64) -> (r: i8)
    ensures
        r as int == int_order(float_key(a), float_key(b)),
{
    let sign: u64 = 0x8000_0000_0000_0000;
    let an = a >= sign;
    let bn = b >= sign;
    if !an && !bn {
        three_way_u64(a, b)
    } else if an && bn {
        three_way_u64(b, a)
    } else if an {
        -1
    } else {
        1
    }
}

/// Lexicographic comparison of two strings by code point.
pub(crate) fn chars_three_way(a: &str, b: &str) -> (r: i8)
    ensures
        r as int == chars_order(a@, b@, 0),
{
    let x = str_chars(a);
    let y = str_chars(b);
    let mut i: usize = 0;
    while i < x.len() && i < y.len()
        invariant
            x@ == a@,
            y@ == b@,
            i <= x.len(),
            i <= y.len(),
            chars_order(a@, b@, 0) == chars_order(a@, b@, i as int),
        decreases x.len() - i,
    {
        if x[i] != y[i] {
            proof {
                vstd::utf8::char_u32_cast(x[i as int], x[i as int] as u32);
                vstd::utf8::char_u32_cast(y[i as int], y[i as int] as u32);
            }
            return if (x[i] as u32) < (y[i] as u32) { -1 } else { 1 };
        }
        i = i + 1;
    }
    if x.len() < y.len() { -1 } else if x.len() == y.len() { 0 } else { 1 }
}

/// The three-way comparison of two values under [`node_order`].
#[verifier::loop_isolation(false)]
pub fn compare_values(a: &BorrowedValue<'_>, b: &BorrowedValue<'_>) -> (r: i8)
    ensures
        r as int == node_order(a.model(), b.model()),
    decreases a,
{
    let ra = discriminant_rank(a);
    let rb = discriminant_rank(b);
    if ra != rb {
        return if ra < rb { -1 } else { 1 };
    }
    match a {
        BorrowedValue::Null => 0,
        BorrowedValue::Bool(x) => match b {
            BorrowedValue::Bool(y) => if *x == *y { 0 } else if !*x { -1 } else { 1 },
            _ => 0,
        },
        BorrowedValue::Int(x) => match b {
            BorrowedValue::Int(y) => if *x < *y { -1 } else if *x == *y { 0 } else { 1 },
            _ => 0,
        },
        BorrowedValue::Float(x) => match b {
            BorrowedValue::Float(y) => float_total_order(*x, *y),
            _ => 0,
        },
        BorrowedValue::String(x) => match b {
            BorrowedValue::String(y) => chars_three_way(cow_text(x), cow_text(y)),
            _ => 0,
        },
        BorrowedValue::Sequence(xs) => match b {
            BorrowedValue::Sequence(ys) => {
                proof {
                    lemma_model_containers(a);
                    lemma_model_containers(b);
                }
                let ghost mx = items_model(xs@);
                let ghost my = items_model(ys@);
                let mut i: usize = 0;
                while i < xs.len() && i < ys.len()
                    invariant
                        mx == items_model(xs@),
                        my == items_model(ys@),
                        i <= xs.len(),
                        i <= ys.len(),
                        list_order(mx, my, 0) == list_order(mx, my, i as int),
                    decreases xs.len() - i,
                {
                    proof { vstd::std_specs::vec::axiom_vec_index_decreases(*xs, i as int); }
                    let c = compare_values(&xs[i], &ys[i]);
                    if c != 0 {
                        return c;
                    }
                    i = i + 1;
                }
                if xs.len() < ys.len() { -1 } else if xs.len() == ys.len() { 0 } else { 1 }
            },
            _ => 0,
        },
        BorrowedValue::Mapping(xs) => match b {
            BorrowedValue::Mapping(ys) => {
                proof {
                    lemma_model_containers(a);
                    lemma_model_containers(b);
                }
                let ghost mx = pairs_model(xs@);
                let ghost my = pairs_model(ys@);
                let mut i: usize = 0;
                while i < xs.len() && i < ys.len()
                    invariant
                        mx == pairs_model(xs@),
                        my == pairs_model(ys@),
                        i <= xs.len(),
                        i <= ys.len(),
                        pairs_order(mx, my, 0) == pairs_order(mx, my, i as int),
                    decreases xs.len() - i,
                {
                    proof {
                        vstd::std_specs::vec::axiom_vec_index_decreases(*xs, i as int);
                        assert(decreases_to!(xs@[i as int] => xs@[i as int].0));
                        assert(decreases_to!(xs@[i as int] => xs@[i as int].1));
                    }
                    let ck = compare_values(&xs[i].0, &ys[i].0);
                    if ck != 0 {
                        return ck;
                    }
                    let cv = compare_values(&xs[i].1, &ys[i].1);
                    if cv != 0 {
                        return cv;
                    }
                    i = i + 1;
                }
                if xs.len() < ys.len() { -1 } else if xs.len() == ys.len() { 0 } else { 1 }
            },
            _ => 0,
        },
        BorrowedValue::Tagged(tx, ix) => match b {
            BorrowedValue::Tagged(ty, iy) => {
                let c = chars_three_way(cow_text(tx), cow_text(ty));
                if c != 0 {
                    c
                } else {
                    compare_values(ix, iy)
                }
            },
            _ => 0,
        },
    }
}

impl<'a> BorrowedValue<'a> {
    /// The total order on values (see [`node_order`]).
    pub fn cmp(&self, other: &BorrowedValue<'_>) -> (r: Ordering)
        ensures
            r == ordering_of(node_order(self.model(), other.model())),
    {
        let c = compare_values(self, other);
        if c < 0 {
            Ordering::Less
        } else if c == 0 {
            Ordering::Equal
        } else {
            Ordering::Greater
        }
    }
}

impl<'a> BorrowedValue<'a> {
    /// Equality under the order: the two values have the same model.
    pub fn equals(&self, other: &BorrowedValue<'_>) -> (r: bool)
        ensures
            r == (self.model() == other.model()),
    {
        let c = compare_values(self, other);
        proof {
            if c == 0 {
                crate::order_laws::order_equal_is_identity(self.model(), other.model());
            }
            if self.model() == other.model() {
                crate::order_laws::order_reflexive(self.model());
            }
        }
        c == 0
    }
}

/// The node an integer is kept as: an integer when it fits in `i64`,
/// otherwise its decimal text, verbatim.
pub open spec fn integer_node(i: int) -> Node {
    if -0x8000_0000_0000_0000 <= i <= 0x7fff_ffff_ffff_ffff {
        Node::Int(i)
    } else {
        Node::Str(signed_decimal(i))
    }
}

impl<'a> BorrowedValue<'a> {
    /// A `u64` as a value (see [`integer_node`]).
    pub fn from_u64(n: u64) -> (r: BorrowedValue<'a>)
        ensures
            r.model() == integer_node(n as int),
    {
        BorrowedValue::from_u128(n as u128)
    }

    /// A `u128` as a value (see [`integer_node`]).
    pub fn from_u128(n: u128) -> (r: BorrowedValue<'a>)
        ensures
            r.model() == integer_node(n as int),
    {
        if n <= 0x7fff_ffff_ffff_ffffu128 {
            BorrowedValue::Int(n as i64)
        } else {
            let mut s = String::new();
            push_decimal_wide(&mut s, n);
            BorrowedValue::String(Cow::Owned(s))
        }
    }

    /// An `i128` as a value (see [`integer_node`]).
    pub fn from_i128(n: i128) -> (r: BorrowedValue<'a>)
        ensures
            r.model() == integer_node(n as int),
    {
        if -0x8000_0000_0000_0000i128 <= n && n <= 0x7fff_ffff_ffff_ffffi128 {
            BorrowedValue::Int(n as i64)
        } else {
            let mut s = String::new();
            push_signed_decimal_wide(&mut s, n);
            BorrowedValue::String(Cow::Owned(s))
        }
    }

    /// A string slice as a string value, copied.
    pub fn from_text(t: &str) -> (r: BorrowedValue<'a>)
        ensures
            r.model() == Node::Str(t@),
    {
        BorrowedValue::String(Cow::Owned(String::from_str(t)))
    }
}

impl<'a> From<bool> for BorrowedValue<'a> {
    fn from(b: bool) -> (r: BorrowedValue<'a>) {
        BorrowedValue::Bool(b)
    }
}

impl<'a> vstd::std_specs::convert::FromSpecImpl<bool> for BorrowedValue<'a> {
    open spec fn obeys_from_spec() -> bool {
        true
    }

    open spec fn from_spec(b: bool) -> BorrowedValue<'a> {
        BorrowedValue::Bool(b)
    }
}

impl<'a> From<i64> for BorrowedValue<'a> {
    fn from(n: i64) -> (r: BorrowedValue<'a>) {
        BorrowedValue::Int(n)
    }
}

impl<'a> vstd::std_specs::convert::FromSpecImpl<i64> for BorrowedValue<'a> {
    open spec fn obeys_from_spec() -> bool {
        true
    }

    open spec fn from_spec(n: i64) -> BorrowedValue<'a> {
        BorrowedValue::Int(n)
    }
}

impl<'a> From<i32> for BorrowedValue<'a> {
    fn from(n: i32) -> (r: BorrowedValue<'a>) {
        BorrowedValue::Int(n as i64)
    }
}

impl<'a> vstd::std_specs::convert::FromSpecImpl<i32> for BorrowedValue<'a> {
    open spec fn obeys_from_spec() -> bool {
        true
    }

    open spec fn from_spec(n: i32) -> BorrowedValue<'a> {
        BorrowedValue::Int(n as i64)
    }
}

impl<'a> From<i16> for BorrowedValue<'a> {
    fn from(n: i16) -> (r: BorrowedValue<'a>) {
        BorrowedValue::Int(n as i64)
    }
}

impl<'a> vstd::std_specs::convert::FromSpecImpl<i16> for BorrowedValue<'a> {
    open spec fn obeys_from_spec() -> bool {
        true
    }

    open spec fn from_spec(n: i16) -> BorrowedValue<'a> {
        BorrowedValue::Int(n as i64)
    }
}

impl<'a> From<i8> for BorrowedValue<'a> {
    fn from(n: i8) -> (r: BorrowedValue<'a>) {
        BorrowedValue::Int(n as i64)
    }
}

impl<'a> vstd::std_specs::convert::FromSpecImpl<i8> for BorrowedValue<'a> {
    open spec fn obeys_from_spec() -> bool {
        true
    }

    open spec fn from_spec(n: i8) -> BorrowedValue<'a> {
        BorrowedValue::Int(n as i64)
    }
}

impl<'a> From<u32> for BorrowedValue<'a> {
    fn from(n: u32) -> (r: BorrowedValue<'a>) {
        BorrowedValue::Int(n as i64)
    }
}

impl<'a> vstd::std_specs::convert::FromSpecImpl<u32> for BorrowedValue<'a> {
    open spec fn obeys_from_spec() -> bool {
        true
    }

    open spec fn from_spec(n: u32) -> BorrowedValue<'a> {
        BorrowedValue::Int(n as i64)
    }
}

impl<'a> From<u16> for BorrowedValue<'a> {
    fn from(n: u16) -> (r: BorrowedValue<'a>) {
        BorrowedValue::Int(n as i64)
    }
}

impl<'a> vstd::std_specs::convert::FromSpecImpl<u16> for BorrowedValue<'a> {
    open spec fn obeys_from_spec() -> bool {
        true
    }

    open spec fn from_spec(n: u16) -> BorrowedValue<'a> {
        BorrowedValue::Int(n as i64)
    }
}

impl<'a> From<u8> for BorrowedValue<'a> {
    fn from(n: u8) -> (r: BorrowedValue<'a>) {
        BorrowedValue::Int(n as i64)
    }
}

impl<'a> vstd::std_specs::convert::FromSpecImpl<u8> for BorrowedValue<'a> {
    open spec fn obeys_from_spec() -> bool {
        true
    }

    open spec fn from_spec(n: u8) -> BorrowedValue<'a> {
        BorrowedValue::Int(n as i64)
    }
}

impl<'a> From<String> for BorrowedValue<'a> {
    fn from(s: String) -> (r: BorrowedValue<'a>) {
        BorrowedValue::String(Cow::Owned(s))
    }
}

impl<'a> vstd::std_specs::convert::FromSpecImpl<String> for BorrowedValue<'a> {
    open spec fn obeys_from_spec() -> bool {
        true
    }

    open spec fn from_spec(s: String) -> BorrowedValue<'a> {
        BorrowedValue::String(Cow::Owned(s))
    }
}

/// Every string and tag of a borrowed value is a borrow.
pub open spec fn all_borrowed(v: BorrowedValue<'_>) -> bool
    decreases v,
{
    match v {
        BorrowedValue::String(c) => c is Borrowed,
        BorrowedValue::Tagged(t, inner) => t is Borrowed && all_borrowed(*inner),
        BorrowedValue::Sequence(items) => forall|i: int| 0 <= i < items.len() ==> all_borrowed(#[trigger] items@[i]),
        BorrowedValue::Mapping(pairs) => forall|i: int| 0 <= i < pairs.len() ==> all_borrowed(#[trigger] pairs@[i].0) && all_borrowed(pairs@[i].1),
        _ => true,
    }
}

} // verus!
