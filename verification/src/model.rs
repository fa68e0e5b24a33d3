//! Metric names, labels, series keys, timestamps and samples.

use std::time::{Duration, SystemTime, UNIX_EPOCH};

use vstd::prelude::*;
use vstd::std_specs::iter::IteratorSpec;

use crate::binary64::{number_eq, same_number};
use crate::numeral::{int_text, push_signed};
use crate::order::{
    compare_text, is_outcome, is_strict_order, lemma_lex_order, lemma_pair_order, lemma_text_order,
    lemma_text_strict, lemma_text_transitive, lex_order, pair_order, text_before, text_order, Order,
};
use crate::sorted::{is_sorted, keys_of, lemma_map_of, map_of, Ordered, SortedMap};
use crate::text::{alpha, debug_string, debug_text, digit, is_alpha, is_digit, str_eq, to_chars};

verus! {

/// The names and values of a label set.
pub type LabelPairs = Seq<(Seq<char>, Seq<char>)>;

/// The name and the labels of a series.
pub type Key = (Seq<char>, LabelPairs);

/// A name of the form `[a-zA-Z_:][a-zA-Z0-9_:]*`.
pub open spec fn is_metric_name(s: Seq<char>) -> bool {
    &&& s.len() > 0
    &&& !is_digit(s[0])
    &&& forall|i: int|
        0 <= i < s.len() ==> is_alpha(#[trigger] s[i]) || is_digit(s[i]) || s[i] == '_' || s[i]
            == ':'
}

/// A name of the form `[a-zA-Z_][a-zA-Z0-9_]*`.
pub open spec fn is_label_name(s: Seq<char>) -> bool {
    &&& s.len() > 0
    &&& !is_digit(s[0])
    &&& forall|i: int|
        0 <= i < s.len() ==> is_alpha(#[trigger] s[i]) || is_digit(s[i]) || s[i] == '_'
}

/// Whether the text is a name; a colon is allowed in it where `colon` is set.
fn name_valid(s: &str, colon: bool) -> (r: bool)
    ensures
        r == if colon {
            is_metric_name(s@)
        } else {
            is_label_name(s@)
        },
{
    let cs = to_chars(s);
    if cs.len() == 0 || digit(cs[0]) {
        return false;
    }
    for i in 0..cs.len()
        invariant
            cs@ == s@,
            forall|j: int|
                0 <= j < i ==> is_alpha(#[trigger] cs@[j]) || is_digit(cs@[j]) || cs@[j] == '_' || (
                colon && cs@[j] == ':'),
    {
        let c = cs[i];
        if !(alpha(c) || digit(c) || c == '_' || (colon && c == ':')) {
            assert(!is_alpha(s@[i as int]));
            return false;
        }
    }
    true
}

/// Validated metric name: `[a-zA-Z_:][a-zA-Z0-9_:]*`.
#[derive(Debug, PartialEq, Eq, Hash, PartialOrd, Ord)]
pub struct MetricName {
    text: String,
}

impl View for MetricName {
    type V = Seq<char>;

    closed spec fn view(&self) -> Seq<char> {
        self.text@
    }
}

impl Clone for MetricName {
    fn clone(&self) -> (r: Self)
        ensures
            r@ == self@,
    {
        proof {
            use_type_invariant(self);
        }
        MetricName { text: self.text.clone() }
    }
}

impl MetricName {
    #[verifier::type_invariant]
    spec fn valid(&self) -> bool {
        is_metric_name(self.text@)
    }

    pub fn parse(s: &str) -> (r: Result<Self, ModelError>)
        ensures
            match r {
                Ok(name) => is_metric_name(s@) && name@ == s@,
                Err(e) => !is_metric_name(s@) && (e matches ModelError::InvalidMetricName(t) && t@
                    == s@),
            },
    {
        if name_valid(s, true) {
            Ok(MetricName { text: s.to_owned() })
        } else {
            Err(ModelError::InvalidMetricName(s.to_owned()))
        }
    }

    pub fn as_str(&self) -> (r: &str)
        ensures
            r@ == self@,
            is_metric_name(r@),
    {
        proof {
            use_type_invariant(self);
        }
        self.text.as_str()
    }
}

impl Ordered for MetricName {
    open spec fn order() -> spec_fn(Seq<char>, Seq<char>) -> bool {
        text_order()
    }

    proof fn lemma_order() {
        lemma_text_order();
    }

    fn compare(&self, other: &Self) -> (r: Order) {
        compare_text(self.text.as_str(), other.text.as_str())
    }
}

/// Validated label name: `[a-zA-Z_][a-zA-Z0-9_]*`.
#[derive(Debug, PartialEq, Eq, Hash, PartialOrd, Ord)]
pub struct LabelName {
    text: String,
}

impl View for LabelName {
    type V = Seq<char>;

    closed spec fn view(&self) -> Seq<char> {
        self.text@
    }
}

impl Clone for LabelName {
    fn clone(&self) -> (r: Self)
        ensures
            r@ == self@,
    {
        proof {
            use_type_invariant(self);
        }
        LabelName { text: self.text.clone() }
    }
}

impl LabelName {
    #[verifier::type_invariant]
    spec fn valid(&self) -> bool {
        is_label_name(self.text@)
    }

    pub fn parse(s: &str) -> (r: Result<Self, ModelError>)
        ensures
            match r {
                Ok(name) => is_label_name(s@) && name@ == s@,
                Err(e) => !is_label_name(s@) && (e matches ModelError::InvalidLabelName(t) && t@
                    == s@),
            },
    {
        if name_valid(s, false) {
            Ok(LabelName { text: s.to_owned() })
        } else {
            Err(ModelError::InvalidLabelName(s.to_owned()))
        }
    }

    pub fn as_str(&self) -> (r: &str)
        ensures
            r@ == self@,
            is_label_name(r@),
    {
        proof {
            use_type_invariant(self);
        }
        self.text.as_str()
    }
}

impl Ordered for LabelName {
    open spec fn order() -> spec_fn(Seq<char>, Seq<char>) -> bool {
        text_order()
    }

    proof fn lemma_order() {
        lemma_text_order();
    }

    fn compare(&self, other: &Self) -> (r: Order) {
        compare_text(self.text.as_str(), other.text.as_str())
    }
}

/// Label value: any text.
#[derive(Debug, PartialEq, Eq, Hash, PartialOrd, Ord)]
pub struct LabelValue {
    text: String,
}

impl View for LabelValue {
    type V = Seq<char>;

    closed spec fn view(&self) -> Seq<char> {
        self.text@
    }
}

impl Clone for LabelValue {
    fn clone(&self) -> (r: Self)
        ensures
            r@ == self@,
    {
        LabelValue { text: self.text.clone() }
    }
}

impl LabelValue {
    pub fn new(s: &str) -> (r: Self)
        ensures
            r@ == s@,
    {
        LabelValue { text: s.to_owned() }
    }

    pub fn as_str(&self) -> (r: &str)
        ensures
            r@ == self@,
    {
        self.text.as_str()
    }
}

impl Ordered for LabelValue {
    open spec fn order() -> spec_fn(Seq<char>, Seq<char>) -> bool {
        text_order()
    }

    proof fn lemma_order() {
        lemma_text_order();
    }

    fn compare(&self, other: &Self) -> (r: Order) {
        compare_text(self.text.as_str(), other.text.as_str())
    }
}

#[derive(Debug, PartialEq, Eq)]
pub enum ModelError {
    InvalidMetricName(String),
    InvalidLabelName(String),
    InvalidMetricKind(String),
    DuplicateLabel(String),
    TimestampOutOfRange(i64),
}

impl Clone for ModelError {
    fn clone(&self) -> (r: Self)
        ensures
            r == *self,
    {
        match self {
            ModelError::InvalidMetricName(s) => ModelError::InvalidMetricName(s.clone()),
            ModelError::InvalidLabelName(s) => ModelError::InvalidLabelName(s.clone()),
            ModelError::InvalidMetricKind(s) => ModelError::InvalidMetricKind(s.clone()),
            ModelError::DuplicateLabel(s) => ModelError::DuplicateLabel(s.clone()),
            ModelError::TimestampOutOfRange(ms) => ModelError::TimestampOutOfRange(*ms),
        }
    }
}

impl ModelError {
    /// The text of the error.
    pub open spec fn text(&self) -> Seq<char> {
        match self {
            ModelError::InvalidMetricName(s) => "MetricName: invalid name "@ + debug_text(s@),
            ModelError::InvalidLabelName(s) => "LabelName: invalid name "@ + debug_text(s@),
            ModelError::InvalidMetricKind(s) => "MetricKind: unknown kind "@ + debug_text(s@),
            ModelError::DuplicateLabel(s) => "Labels: duplicate label name "@ + debug_text(s@),
            ModelError::TimestampOutOfRange(ms) => "TimestampMs: value "@ + int_text(*ms as int)
                + " out of range"@,
        }
    }

    pub fn message(&self) -> (r: String)
        ensures
            r@ == self.text(),
    {
        let mut out = String::new();
        match self {
            ModelError::InvalidMetricName(s) => {
                out.append("MetricName: invalid name ");
                out.append(debug_string(s.as_str()).as_str());
            },
            ModelError::InvalidLabelName(s) => {
                out.append("LabelName: invalid name ");
                out.append(debug_string(s.as_str()).as_str());
            },
            ModelError::InvalidMetricKind(s) => {
                out.append("MetricKind: unknown kind ");
                out.append(debug_string(s.as_str()).as_str());
            },
            ModelError::DuplicateLabel(s) => {
                out.append("Labels: duplicate label name ");
                out.append(debug_string(s.as_str()).as_str());
            },
            ModelError::TimestampOutOfRange(ms) => {
                out.append("TimestampMs: value ");
                push_signed(&mut out, *ms);
                out.append(" out of range");
            },
        }
        assert(out@ =~= self.text());
        out
    }
}

/// No name occurs twice.
pub open spec fn names_distinct(s: LabelPairs) -> bool {
    forall|i: int, j: int| 0 <= i < j < s.len() ==> (#[trigger] s[i]).0 != (#[trigger] s[j]).0
}

/// The name occurs twice.
pub open spec fn occurs_twice(s: LabelPairs, n: Seq<char>) -> bool {
    exists|i: int, j: int|
        0 <= i < j < s.len() && (#[trigger] s[i]).0 == n && (#[trigger] s[j]).0 == n
}

/// The least of the names that occur twice.
pub open spec fn is_least_duplicate(s: LabelPairs, n: Seq<char>) -> bool {
    &&& occurs_twice(s, n)
    &&& forall|m: Seq<char>| #[trigger] occurs_twice(s, m) ==> !text_before(m, n)
}

/// `r` holds the pairs of `s`, sorted by name.
pub open spec fn is_label_listing(r: LabelPairs, s: LabelPairs) -> bool {
    &&& is_label_set(r)
    &&& forall|p: (Seq<char>, Seq<char>)| r.contains(p) <==> s.contains(p)
}

/// The pairs are sorted by name, and no name occurs twice.
pub open spec fn is_label_set(s: LabelPairs) -> bool {
    is_sorted(keys_of(s), text_order())
}

/// The label set made of the given pairs.
pub open spec fn labels_of(s: LabelPairs) -> LabelPairs {
    choose|r: LabelPairs| is_label_listing(r, s)
}

pub open spec fn least_duplicate(s: LabelPairs) -> Seq<char> {
    choose|n: Seq<char>| is_least_duplicate(s, n)
}

pub open spec fn label_pair_order() -> spec_fn((Seq<char>, Seq<char>), (Seq<char>, Seq<char>)) -> bool {
    pair_order(text_order(), text_order())
}

/// The order of label sets: lexicographic by name and value.
pub open spec fn labels_order() -> spec_fn(LabelPairs, LabelPairs) -> bool {
    lex_order(label_pair_order())
}

pub proof fn lemma_labels_order()
    ensures
        is_strict_order(label_pair_order()),
        is_strict_order(labels_order()),
{
    lemma_text_order();
    lemma_pair_order(text_order(), text_order());
    lemma_lex_order(label_pair_order());
}

/// A label set is determined by the pairs that it holds.
pub proof fn lemma_label_listing_unique(a: LabelPairs, b: LabelPairs)
    requires
        is_label_set(a),
        is_label_set(b),
        forall|p: (Seq<char>, Seq<char>)| a.contains(p) <==> b.contains(p),
    ensures
        a == b,
{
    lemma_labels_order();
    lemma_set_pairs_sorted(a);
    lemma_set_pairs_sorted(b);
    crate::sorted::lemma_sorted_unique(a, b, label_pair_order());
}

proof fn lemma_set_pairs_sorted(a: LabelPairs)
    requires
        is_label_set(a),
    ensures
        is_sorted(a, label_pair_order()),
{
    assert forall|i: int, j: int| 0 <= i < j < a.len() implies label_pair_order()(
        #[trigger] a[i],
        #[trigger] a[j],
    ) by {
        assert(text_order()(keys_of(a)[i], keys_of(a)[j]));
    }
}

pub proof fn lemma_labels_of(r: LabelPairs, s: LabelPairs)
    requires
        is_label_listing(r, s),
    ensures
        labels_of(s) == r,
{
    let l = labels_of(s);
    assert(is_label_listing(l, s));
    lemma_label_listing_unique(l, r);
}

pub proof fn lemma_least_duplicate(s: LabelPairs, n: Seq<char>)
    requires
        is_least_duplicate(s, n),
    ensures
        least_duplicate(s) == n,
        !names_distinct(s),
{
    let m = least_duplicate(s);
    assert(is_least_duplicate(s, m));
    lemma_text_order();
    assert(text_order()(m, n) || text_order()(n, m) || m == n);
}

proof fn lemma_occurs_twice_permuted(a: LabelPairs, b: LabelPairs, n: Seq<char>)
    requires
        a.to_multiset() == b.to_multiset(),
        occurs_twice(a, n),
    ensures
        occurs_twice(b, n),
{
    broadcast use vstd::seq_lib::group_to_multiset_ensures;

    let (i, j) = choose|i: int, j: int|
        0 <= i < j < a.len() && (#[trigger] a[i]).0 == n && (#[trigger] a[j]).0 == n;
    let (p, q) = (a[i], a[j]);
    assert(a.to_multiset().contains(p));
    assert(b.contains(p));
    let k = choose|k: int| 0 <= k < b.len() && b[k] == p;
    assert(a.remove(i).to_multiset() =~= a.to_multiset().remove(p));
    assert(b.remove(k).to_multiset() =~= b.to_multiset().remove(p));
    assert(a.remove(i)[j - 1] == q);
    assert(a.remove(i).contains(q));
    assert(b.remove(k).to_multiset().contains(q));
    assert(b.remove(k).contains(q));
    let l = choose|l: int| 0 <= l < b.remove(k).len() && b.remove(k)[l] == q;
    if l < k {
        assert(b[l].0 == n && b[k].0 == n);
    } else {
        assert(b[k].0 == n && b[l + 1].0 == n);
    }
}

/// Two lists of the same pairs, in whatever order, make the same label set or
/// are refused for the same name.
pub proof fn law_labels_order_independent(a: LabelPairs, b: LabelPairs)
    requires
        a.to_multiset() == b.to_multiset(),
    ensures
        names_distinct(a) == names_distinct(b),
        forall|r: LabelPairs| is_label_listing(r, a) == #[trigger] is_label_listing(r, b),
        forall|n: Seq<char>| is_least_duplicate(a, n) == #[trigger] is_least_duplicate(b, n),
{
    assert forall|n: Seq<char>|
        #![trigger occurs_twice(a, n)]
        #![trigger occurs_twice(b, n)]
        occurs_twice(a, n) == occurs_twice(b, n) by {
        if occurs_twice(a, n) {
            lemma_occurs_twice_permuted(a, b, n);
        }
        if occurs_twice(b, n) {
            lemma_occurs_twice_permuted(b, a, n);
        }
    }
    lemma_distinct_or_twice(a);
    lemma_distinct_or_twice(b);
    assert forall|p: (Seq<char>, Seq<char>)| a.contains(p) <==> b.contains(p) by {
        broadcast use vstd::seq_lib::group_to_multiset_ensures;

        assert(a.to_multiset().contains(p) == b.to_multiset().contains(p));
    }
}

proof fn lemma_distinct_or_twice(s: LabelPairs)
    ensures
        names_distinct(s) <==> forall|n: Seq<char>| !#[trigger] occurs_twice(s, n),
{
    if forall|n: Seq<char>| !#[trigger] occurs_twice(s, n) {
        assert forall|i: int, j: int| 0 <= i < j < s.len() implies (#[trigger] s[i]).0 != (
        #[trigger] s[j]).0 by {
            assert(!occurs_twice(s, s[i].0));
        }
    }
}

/// What a further pair in front does to duplicates.
proof fn lemma_prepend(p: (Seq<char>, Seq<char>), t: LabelPairs)
    ensures
        ({
            let u = seq![p] + t;
            let seen = exists|i: int| 0 <= i < t.len() && (#[trigger] t[i]).0 == p.0;
            &&& names_distinct(u) <==> names_distinct(t) && !seen
            &&& forall|n: Seq<char>| #[trigger]
                occurs_twice(u, n) <==> occurs_twice(t, n) || (seen && n == p.0)
            &&& names_distinct(t) ==> forall|n: Seq<char>| !#[trigger] occurs_twice(t, n)
            &&& forall|q: (Seq<char>, Seq<char>)| #[trigger] u.contains(q) <==> t.contains(q) || q == p
        }),
{
    let u = seq![p] + t;
    assert(u[0] == p);
    assert forall|i: int| 0 <= i < t.len() implies u[i + 1] == #[trigger] t[i] by {}
    let seen = exists|i: int| 0 <= i < t.len() && (#[trigger] t[i]).0 == p.0;
    assert forall|n: Seq<char>| #[trigger] occurs_twice(u, n) <==> occurs_twice(t, n) || (seen && n
        == p.0) by {
        if occurs_twice(u, n) {
            let (i, j) = choose|i: int, j: int|
                0 <= i < j < u.len() && (#[trigger] u[i]).0 == n && (#[trigger] u[j]).0 == n;
            assert(t[j - 1].0 == n);
            if i > 0 {
                assert(t[i - 1].0 == n);
            }
        }
        if occurs_twice(t, n) {
            let (i, j) = choose|i: int, j: int|
                0 <= i < j < t.len() && (#[trigger] t[i]).0 == n && (#[trigger] t[j]).0 == n;
            assert(u[i + 1].0 == n && u[j + 1].0 == n);
        }
        if seen && n == p.0 {
            let i = choose|i: int| 0 <= i < t.len() && (#[trigger] t[i]).0 == p.0;
            assert(u[i + 1].0 == n);
        }
    }
    lemma_distinct_or_twice(t);
    lemma_distinct_or_twice(u);
    if names_distinct(t) && !seen {
        assert forall|n: Seq<char>| !#[trigger] occurs_twice(u, n) by {
            assert(!occurs_twice(t, n));
        }
    }
    if names_distinct(u) {
        assert(!occurs_twice(u, p.0));
        assert forall|n: Seq<char>| !#[trigger] occurs_twice(t, n) by {
            assert(!occurs_twice(u, n));
        }
    }
    assert forall|q: (Seq<char>, Seq<char>)| #[trigger] u.contains(q) <==> t.contains(q) || q == p by {
        if u.contains(q) {
            let i = choose|i: int| 0 <= i < u.len() && u[i] == q;
            if i > 0 {
                assert(t[i - 1] == q);
            }
        }
        if t.contains(q) {
            let i = choose|i: int| 0 <= i < t.len() && t[i] == q;
            assert(u[i + 1] == q);
        }
    }
}

/// The views of label names and values.
pub open spec fn pair_views(s: Seq<(LabelName, LabelValue)>) -> LabelPairs {
    s.map_values(|e: (LabelName, LabelValue)| (e.0@, e.1@))
}

/// Canonical sorted label set with unique names.
#[derive(Debug, PartialEq, Eq, Hash, PartialOrd, Ord)]
pub struct Labels {
    pairs: SortedMap<LabelName, LabelValue>,
}

impl View for Labels {
    type V = LabelPairs;

    closed spec fn view(&self) -> LabelPairs {
        self.pairs.listing()
    }
}

impl Default for Labels {
    fn default() -> (r: Self)
        ensures
            r@ == LabelPairs::empty(),
    {
        Labels::empty()
    }
}

impl Clone for Labels {
    fn clone(&self) -> (r: Self)
        ensures
            r@ == self@,
    {
        let n = self.pairs.len();
        let mut pairs: SortedMap<LabelName, LabelValue> = SortedMap::new();
        for i in 0..n
            invariant
                n == self@.len(),
                is_label_set(self@),
                pairs.listing() == self@.take(i as int),
        {
            proof {
                assert forall|j: int| 0 <= j < i implies text_order()(
                    (#[trigger] self@.take(i as int)[j]).0,
                    self@[i as int].0,
                ) by {
                    assert(text_order()(keys_of(self@)[j], keys_of(self@)[i as int]));
                }
            }
            pairs.push(self.pairs.key_at(i).clone(), self.pairs.value_at(i).clone());
            assert(self@.take(i + 1) =~= self@.take(i as int).push(self@[i as int]));
        }
        assert(self@.take(n as int) =~= self@);
        Labels { pairs }
    }
}

impl Labels {
    pub fn empty() -> (r: Self)
        ensures
            r@ == LabelPairs::empty(),
    {
        Labels { pairs: SortedMap::new() }
    }

    pub fn new(pairs: Vec<(LabelName, LabelValue)>) -> (r: Result<Self, ModelError>)
        ensures
            match r {
                Ok(l) => names_distinct(pair_views(pairs@)) && is_label_listing(
                    l@,
                    pair_views(pairs@),
                ),
                Err(e) => e matches ModelError::DuplicateLabel(n) && is_least_duplicate(
                    pair_views(pairs@),
                    n@,
                ),
            },
    {
        let ghost s = pair_views(pairs@);
        let mut rest = pairs;
        let mut map: SortedMap<LabelName, LabelValue> = SortedMap::new();
        let mut duplicate: Option<LabelName> = None;
        let ghost mut t = LabelPairs::empty();
        proof {
            lemma_text_order();
            assert(pair_views(rest@) + t =~= s);
        }
        while rest.len() > 0
            invariant
                is_strict_order(text_order()),
                pair_views(rest@) + t == s,
                forall|n: Seq<char>| #[trigger]
                    map@.dom().contains(n) <==> exists|i: int|
                        0 <= i < t.len() && (#[trigger] t[i]).0 == n,
                match duplicate {
                    Some(d) => is_least_duplicate(t, d@),
                    None => names_distinct(t) && forall|p: (Seq<char>, Seq<char>)| #[trigger]
                        t.contains(p) <==> map@.dom().contains(p.0) && map@[p.0] == p.1,
                },
            decreases rest@.len(),
        {
            let ghost before = rest@;
            let (name, value) = match rest.pop() {
                Some(p) => p,
                None => {
                    return Ok(Labels::empty());
                },
            };
            let ghost p = (name@, value@);
            let ghost u = seq![p] + t;
            proof {
                assert(pair_views(before) =~= pair_views(rest@).push(p));
                assert(pair_views(rest@) + u =~= s);
                lemma_prepend(p, t);
            }
            if map.contains(&name) {
                let ghost found = duplicate;
                let least = match duplicate {
                    Some(d) => match d.compare(&name) {
                        Order::After => name,
                        _ => d,
                    },
                    None => name,
                };
                proof {
                    assert(occurs_twice(u, p.0));
                    assert forall|m: Seq<char>| #[trigger] occurs_twice(u, m) implies !text_before(
                        m,
                        least@,
                    ) by {
                        lemma_text_strict(m, least@);
                        if found is Some {
                            lemma_text_strict(found->0@, p.0);
                            if occurs_twice(t, m) && text_before(m, p.0) && text_before(
                                p.0,
                                found->0@,
                            ) {
                                lemma_text_transitive(m, p.0, found->0@);
                            }
                        }
                    }
                }
                duplicate = Some(least);
            } else {
                let ghost m = map@;
                map.insert(name, value);
                proof {
                    assert forall|q: (Seq<char>, Seq<char>)| duplicate is None implies (#[trigger]
                    u.contains(q) <==> map@.dom().contains(q.0) && map@[q.0] == q.1) by {
                        assert(t.contains(q) <==> m.dom().contains(q.0) && m[q.0] == q.1);
                    }
                }
            }
            proof {
                assert forall|n: Seq<char>| #[trigger]
                    map@.dom().contains(n) <==> exists|i: int|
                        0 <= i < u.len() && (#[trigger] u[i]).0 == n by {
                    if exists|i: int| 0 <= i < t.len() && (#[trigger] t[i]).0 == n {
                        let i = choose|i: int| 0 <= i < t.len() && (#[trigger] t[i]).0 == n;
                        assert(u[i + 1].0 == n);
                    }
                    assert(u[0].0 == p.0);
                    if exists|i: int| 0 <= i < u.len() && (#[trigger] u[i]).0 == n {
                        let i = choose|i: int| 0 <= i < u.len() && (#[trigger] u[i]).0 == n;
                        if i > 0 {
                            assert(t[i - 1].0 == n);
                        }
                    }
                }
                t = u;
            }
        }
        assert(pair_views(rest@) + t =~= t);
        match duplicate {
            Some(d) => Err(ModelError::DuplicateLabel(d.as_str().to_owned())),
            None => {
                let n = map.len();
                proof {
                    let l = map.listing();
                    lemma_map_of(l, text_order());
                    assert forall|q: (Seq<char>, Seq<char>)| l.contains(q) <==> s.contains(q) by {
                        if l.contains(q) {
                            let i = choose|i: int| 0 <= i < l.len() && l[i] == q;
                            assert(map@.dom().contains(l[i].0));
                            assert(t.contains(q));
                        }
                        if t.contains(q) {
                            let i = choose|i: int| 0 <= i < l.len() && (#[trigger] l[i]).0 == q.0;
                            assert(map@[l[i].0] == l[i].1);
                            assert(l[i] == q);
                        }
                    }
                }
                Ok(Labels { pairs: map })
            },
        }
    }

    pub fn is_empty(&self) -> (r: bool)
        ensures
            r == (self@.len() == 0),
    {
        self.pairs.len() == 0
    }

    pub fn len(&self) -> (r: usize)
        ensures
            r == self@.len(),
            is_label_set(self@),
    {
        self.pairs.len()
    }

    /// The label name at an index.
    pub fn name_at(&self, i: usize) -> (r: &LabelName)
        requires
            i < self@.len(),
        ensures
            r@ == self@[i as int].0,
    {
        self.pairs.key_at(i)
    }

    /// The label value at an index.
    pub fn value_at(&self, i: usize) -> (r: &LabelValue)
        requires
            i < self@.len(),
        ensures
            r@ == self@[i as int].1,
    {
        self.pairs.value_at(i)
    }

    /// The value of the label with the given name.
    pub fn get(&self, name: &str) -> (r: Option<&LabelValue>)
        ensures
            match r {
                Some(v) => map_of(self@).dom().contains(name@) && v@ == map_of(self@)[name@],
                None => !map_of(self@).dom().contains(name@),
            },
    {
        let n = self.pairs.len();
        proof {
            lemma_text_order();
            lemma_map_of(self@, text_order());
        }
        for i in 0..n
            invariant
                n == self@.len(),
                forall|j: int|
                    0 <= j < n ==> map_of(self@).dom().contains((#[trigger] self@[j]).0) && map_of(
                        self@,
                    )[self@[j].0] == self@[j].1,
                forall|j: int| 0 <= j < i ==> (#[trigger] self@[j]).0 != name@,
        {
            if str_eq(self.pairs.key_at(i).as_str(), name) {
                return Some(self.pairs.value_at(i));
            }
        }
        None
    }

    /// The pairs, in the order of their names.
    pub fn iter(&self) -> (r: std::slice::Iter<'_, (LabelName, LabelValue)>)
        ensures
            vstd::std_specs::slice::into_iter_elts(r).map_values(
                |e: (LabelName, LabelValue)| (e.0@, e.1@),
            ) == self@,
            IteratorSpec::remaining(&r).unref() == vstd::std_specs::slice::into_iter_elts(r),
            IteratorSpec::decrease(&r) is Some,
            IteratorSpec::initial_value_relation(&r, &r),
    {
        self.pairs.entries().iter()
    }
}

/// Unique identity of a time series.
#[derive(Debug, PartialEq, Eq, Hash, PartialOrd, Ord)]
pub struct SeriesKey {
    pub name: MetricName,
    pub labels: Labels,
}

impl View for SeriesKey {
    type V = Key;

    open spec fn view(&self) -> Key {
        (self.name@, self.labels@)
    }
}

impl Clone for SeriesKey {
    fn clone(&self) -> (r: Self)
        ensures
            r@ == self@,
    {
        SeriesKey { name: self.name.clone(), labels: self.labels.clone() }
    }
}

/// The order of series: by name and then by labels.
pub open spec fn key_order() -> spec_fn(Key, Key) -> bool {
    pair_order(text_order(), labels_order())
}

pub proof fn lemma_key_order()
    ensures
        is_strict_order(key_order()),
{
    lemma_text_order();
    lemma_labels_order();
    lemma_pair_order(text_order(), labels_order());
}

impl Labels {
    /// Compares two label sets.
    pub fn compare(&self, other: &Self) -> (r: Order)
        ensures
            is_outcome(r, self@, other@, labels_order()),
    {
        let m = self.len();
        let n = other.len();
        let ghost (a, b) = (self@, other@);
        let ghost before = label_pair_order();
        let mut i: usize = 0;
        assert(a.skip(0) =~= a && b.skip(0) =~= b);
        while i < m && i < n
            invariant
                a == self@,
                b == other@,
                m == a.len(),
                n == b.len(),
                i <= m,
                i <= n,
                before == label_pair_order(),
                a.take(i as int) == b.take(i as int),
                labels_order()(a, b) == labels_order()(a.skip(i as int), b.skip(i as int)),
                labels_order()(b, a) == labels_order()(b.skip(i as int), a.skip(i as int)),
            decreases m - i,
        {
            match self.name_at(i).compare(other.name_at(i)) {
                Order::Before => {
                    assert(before(a[i as int], b[i as int]));
                    return Order::Before;
                },
                Order::After => {
                    assert(before(b[i as int], a[i as int]));
                    return Order::After;
                },
                Order::Same => {},
            }
            match self.value_at(i).compare(other.value_at(i)) {
                Order::Before => {
                    assert(before(a[i as int], b[i as int]));
                    return Order::Before;
                },
                Order::After => {
                    assert(before(b[i as int], a[i as int]));
                    return Order::After;
                },
                Order::Same => {},
            }
            proof {
                lemma_labels_order();
                assert(!before(a[i as int], a[i as int]));
                assert(a.skip(i as int).drop_first() =~= a.skip(i + 1));
                assert(b.skip(i as int).drop_first() =~= b.skip(i + 1));
                assert(a.take(i + 1) =~= a.take(i as int).push(a[i as int]));
                assert(b.take(i + 1) =~= b.take(i as int).push(b[i as int]));
            }
            i += 1;
        }
        if i < n {
            Order::Before
        } else if i < m {
            Order::After
        } else {
            assert(a.take(i as int) =~= a && b.take(i as int) =~= b);
            Order::Same
        }
    }
}

impl Ordered for SeriesKey {
    open spec fn order() -> spec_fn(Key, Key) -> bool {
        key_order()
    }

    proof fn lemma_order() {
        lemma_key_order();
    }

    fn compare(&self, other: &Self) -> (r: Order) {
        match self.name.compare(&other.name) {
            Order::Same => self.labels.compare(&other.labels),
            r => r,
        }
    }
}

/// Metric kind from `# TYPE` metadata; a display hint only.
#[derive(Debug, Clone, Copy, PartialEq, Eq, Structural)]
pub enum MetricKind {
    Counter,
    Gauge,
    Histogram,
    Summary,
    Untyped,
}

/// The word for a kind.
pub open spec fn kind_text(kind: MetricKind) -> Seq<char> {
    match kind {
        MetricKind::Counter => "counter"@,
        MetricKind::Gauge => "gauge"@,
        MetricKind::Histogram => "histogram"@,
        MetricKind::Summary => "summary"@,
        MetricKind::Untyped => "untyped"@,
    }
}

/// The kind that a word stands for.
pub open spec fn kind_of(s: Seq<char>) -> Option<MetricKind> {
    if s == "counter"@ {
        Some(MetricKind::Counter)
    } else if s == "gauge"@ {
        Some(MetricKind::Gauge)
    } else if s == "histogram"@ {
        Some(MetricKind::Histogram)
    } else if s == "summary"@ {
        Some(MetricKind::Summary)
    } else if s == "untyped"@ {
        Some(MetricKind::Untyped)
    } else {
        None
    }
}

/// The word for a kind stands for that kind, and no other word does.
pub proof fn law_kind_text(kind: MetricKind, s: Seq<char>)
    ensures
        kind_of(s) == Some(kind) <==> s == kind_text(kind),
{
    reveal_strlit("counter");
    reveal_strlit("gauge");
    reveal_strlit("histogram");
    reveal_strlit("summary");
    reveal_strlit("untyped");
    assert("counter"@[0] == 'c' && "gauge"@[0] == 'g' && "histogram"@[0] == 'h' && "summary"@[0]
        == 's' && "untyped"@[0] == 'u');
}

impl MetricKind {
    pub fn parse(s: &str) -> (r: Result<Self, ModelError>)
        ensures
            match r {
                Ok(kind) => kind_of(s@) == Some(kind),
                Err(e) => kind_of(s@) is None && (e matches ModelError::InvalidMetricKind(t) && t@
                    == s@),
            },
    {
        if str_eq(s, "counter") {
            Ok(MetricKind::Counter)
        } else if str_eq(s, "gauge") {
            Ok(MetricKind::Gauge)
        } else if str_eq(s, "histogram") {
            Ok(MetricKind::Histogram)
        } else if str_eq(s, "summary") {
            Ok(MetricKind::Summary)
        } else if str_eq(s, "untyped") {
            Ok(MetricKind::Untyped)
        } else {
            Err(ModelError::InvalidMetricKind(s.to_owned()))
        }
    }

    pub fn as_str(&self) -> (r: &'static str)
        ensures
            r@ == kind_text(*self),
    {
        match self {
            MetricKind::Counter => "counter",
            MetricKind::Gauge => "gauge",
            MetricKind::Histogram => "histogram",
            MetricKind::Summary => "summary",
            MetricKind::Untyped => "untyped",
        }
    }
}

/// The contents of metadata.
pub struct MetaSpec {
    pub kind: MetricKind,
    pub help: Seq<char>,
}

/// Per-metric metadata from HELP/TYPE lines.
#[derive(Debug, PartialEq)]
pub struct MetricMeta {
    pub kind: MetricKind,
    pub help: String,
}

impl View for MetricMeta {
    type V = MetaSpec;

    open spec fn view(&self) -> MetaSpec {
        MetaSpec { kind: self.kind, help: self.help@ }
    }
}

pub open spec fn default_meta() -> MetaSpec {
    MetaSpec { kind: MetricKind::Untyped, help: Seq::empty() }
}

impl Default for MetricMeta {
    fn default() -> (r: Self)
        ensures
            r@ == default_meta(),
    {
        MetricMeta { kind: MetricKind::Untyped, help: String::new() }
    }
}

impl Clone for MetricMeta {
    fn clone(&self) -> (r: Self)
        ensures
            r@ == self@,
    {
        MetricMeta { kind: self.kind, help: self.help.clone() }
    }
}

/// The last second of the year 9999.
pub const MAX_TIMESTAMP_MS: i64 = 253_402_300_799_000;

/// Unix timestamp in milliseconds, bounded to a sane range.
#[derive(Debug, Clone, Copy, PartialEq, Eq, PartialOrd, Ord, Hash)]
pub struct TimestampMs {
    ms: i64,
}

impl View for TimestampMs {
    type V = int;

    closed spec fn view(&self) -> int {
        self.ms as int
    }
}

/// The number, brought into the range of timestamps.
pub open spec fn clamp_ms(ms: int) -> int {
    if ms < 0 {
        0
    } else if ms > MAX_TIMESTAMP_MS {
        MAX_TIMESTAMP_MS as int
    } else {
        ms
    }
}

/// A reading of the system clock.
#[verifier::external_type_specification]
#[verifier::external_body]
pub struct ExSystemTime(std::time::SystemTime);

/// `SystemTime::now` reads the system clock. Nothing is claimed of the reading.
pub assume_specification[ SystemTime::now ]() -> SystemTime;

/// `SystemTime::duration_since` of the Unix epoch; `None` for a reading before it.
/// Nothing is claimed of it: it depends on the clock.
#[verifier::external_body]
fn since_epoch(t: SystemTime) -> (r: Option<Duration>) {
    t.duration_since(UNIX_EPOCH).ok()
}

/// `Duration::as_millis` gives the whole milliseconds of a duration. What a
/// duration holds is not modelled, so nothing is claimed of the number.
pub assume_specification[ Duration::as_millis ](d: &Duration) -> u128;

impl TimestampMs {
    #[verifier::type_invariant]
    spec fn in_range(self) -> bool {
        0 <= self.ms <= MAX_TIMESTAMP_MS
    }

    pub fn new(ms: i64) -> (r: Result<Self, ModelError>)
        ensures
            match r {
                Ok(t) => 0 <= ms <= MAX_TIMESTAMP_MS && t@ == ms,
                Err(e) => !(0 <= ms <= MAX_TIMESTAMP_MS) && e == ModelError::TimestampOutOfRange(
                    ms,
                ),
            },
    {
        if 0 <= ms && ms <= MAX_TIMESTAMP_MS {
            Ok(TimestampMs { ms })
        } else {
            Err(ModelError::TimestampOutOfRange(ms))
        }
    }

    /// The timestamp of a clock reading, zero for a clock before the epoch.
    pub fn from_clock(millis: Option<u128>) -> (r: Self)
        ensures
            r@ == match millis {
                Some(ms) => clamp_ms(ms as int),
                None => 0,
            },
    {
        match millis {
            Some(ms) => if ms <= MAX_TIMESTAMP_MS as u128 {
                TimestampMs { ms: ms as i64 }
            } else {
                TimestampMs { ms: MAX_TIMESTAMP_MS }
            },
            None => TimestampMs { ms: 0 },
        }
    }

    /// The timestamp of the present moment.
    pub fn now() -> (r: Self)
        ensures
            0 <= r@ <= MAX_TIMESTAMP_MS,
    {
        let millis = match since_epoch(SystemTime::now()) {
            Some(d) => Some(d.as_millis()),
            None => None,
        };
        let r = TimestampMs::from_clock(millis);
        proof {
            use_type_invariant(&r);
        }
        r
    }

    pub fn as_millis(&self) -> (r: i64)
        ensures
            r == self@,
            0 <= r <= MAX_TIMESTAMP_MS,
    {
        proof {
            use_type_invariant(self);
        }
        self.ms
    }

    /// The timestamp that lies `ms` milliseconds earlier, kept in range.
    pub fn saturating_sub_millis(&self, ms: i64) -> (r: Self)
        ensures
            r@ == clamp_ms(self@ - ms),
    {
        proof {
            use_type_invariant(self);
        }
        let t: i128 = self.ms as i128 - ms as i128;
        if t < 0 {
            TimestampMs { ms: 0 }
        } else if t > MAX_TIMESTAMP_MS as i128 {
            TimestampMs { ms: MAX_TIMESTAMP_MS }
        } else {
            TimestampMs { ms: t as i64 }
        }
    }
}

/// A moment in milliseconds and a value.
pub struct Point {
    pub ts: int,
    pub value: u64,
}

/// A single measured point. The value is the bit pattern of a binary64 number.
#[derive(Debug, Clone, Copy)]
pub struct Sample {
    pub ts: TimestampMs,
    pub value: u64,
}

/// Samples are equal where their timestamps and the numbers that they hold are.
impl PartialEq for Sample {
    fn eq(&self, other: &Self) -> (r: bool) {
        self.ts.as_millis() == other.ts.as_millis() && number_eq(self.value, other.value)
    }
}

impl vstd::std_specs::cmp::PartialEqSpecImpl for Sample {
    open spec fn obeys_eq_spec() -> bool {
        true
    }

    open spec fn eq_spec(&self, other: &Self) -> bool {
        self.ts@ == other.ts@ && same_number(self.value, other.value)
    }
}

impl View for Sample {
    type V = Point;

    open spec fn view(&self) -> Point {
        Point { ts: self.ts@, value: self.value }
    }
}

/// The contents of a sample before storage.
pub struct ScrapedSpec {
    pub key: Key,
    pub value: u64,
    pub ts: Option<int>,
}

/// One parsed sample from a push body or scrape, before storage. The value is
/// the bit pattern of a binary64 number.
#[derive(Debug)]
pub struct ScrapedSample {
    pub key: SeriesKey,
    pub value: u64,
    /// None means "stamp with server time at ingestion".
    pub ts: Option<TimestampMs>,
}

/// Samples are equal where their keys, their timestamps and the numbers that
/// they hold are.
impl PartialEq for ScrapedSample {
    fn eq(&self, other: &Self) -> (r: bool) {
        proof {
            lemma_key_order();
        }
        let same_key = match self.key.compare(&other.key) {
            Order::Same => true,
            _ => false,
        };
        let same_time = match (&self.ts, &other.ts) {
            (Some(a), Some(b)) => a.as_millis() == b.as_millis(),
            (None, None) => true,
            _ => false,
        };
        same_key && same_time && number_eq(self.value, other.value)
    }
}

impl vstd::std_specs::cmp::PartialEqSpecImpl for ScrapedSample {
    open spec fn obeys_eq_spec() -> bool {
        true
    }

    open spec fn eq_spec(&self, other: &Self) -> bool {
        self@.key == other@.key && self@.ts == other@.ts && same_number(self.value, other.value)
    }
}

impl View for ScrapedSample {
    type V = ScrapedSpec;

    open spec fn view(&self) -> ScrapedSpec {
        ScrapedSpec {
            key: self.key@,
            value: self.value,
            ts: match self.ts {
                Some(t) => Some(t@),
                None => None,
            },
        }
    }
}

impl Clone for ScrapedSample {
    fn clone(&self) -> (r: Self)
        ensures
            r@ == self@,
    {
        ScrapedSample { key: self.key.clone(), value: self.value, ts: self.ts }
    }
}

} // verus!
