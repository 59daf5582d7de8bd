//! Timestamped keys: a user key paired with the timestamp of one write, ordered by
//! user key ascending and then by timestamp descending, so that the freshest version
//! of a key comes first in any ordered traversal.

use vstd::prelude::*;

verus! {

/// Monotonic version stamp that the caller assigns to each write.
pub type Timestamp = u32;

/// Result of a three-way comparison.
#[derive(Clone, Copy, Debug, PartialEq, Eq, Structural)]
pub enum KeyOrder {
    Less,
    Equal,
    Greater,
}

/// `a` and `b` both have at least `n` bytes and agree on the first `n`.
pub open spec fn same_prefix(a: Seq<u8>, b: Seq<u8>, n: int) -> bool {
    &&& 0 <= n <= a.len()
    &&& n <= b.len()
    &&& forall|k: int| 0 <= k < n ==> a[k] == b[k]
}

/// Strict lexicographic order on user keys: after a common prefix either `a` ends
/// and `b` goes on, or `a` holds the smaller byte.
pub open spec fn key_lt(a: Seq<u8>, b: Seq<u8>) -> bool {
    exists|n: int| #[trigger]
        same_prefix(a, b, n) && ((n == a.len() && n < b.len()) || (n < a.len() && n < b.len()
            && a[n] < b[n]))
}

pub open spec fn key_le(a: Seq<u8>, b: Seq<u8>) -> bool {
    a == b || key_lt(a, b)
}

/// First position at or after `i` where `a` and `b` stop agreeing.
pub open spec fn first_difference(a: Seq<u8>, b: Seq<u8>, i: int) -> int
    decreases a.len() - i,
{
    if i < 0 || i >= a.len() || i >= b.len() || a[i] != b[i] {
        i
    } else {
        first_difference(a, b, i + 1)
    }
}

proof fn lemma_first_difference(a: Seq<u8>, b: Seq<u8>, i: int)
    requires
        same_prefix(a, b, i),
    ensures
        same_prefix(a, b, first_difference(a, b, i)),
        ({
            let n = first_difference(a, b, i);
            n == a.len() || n == b.len() || a[n] != b[n]
        }),
    decreases a.len() - i,
{
    if i >= a.len() || i >= b.len() || a[i] != b[i] {
    } else {
        assert(same_prefix(a, b, i + 1));
        lemma_first_difference(a, b, i + 1);
    }
}

/// No key is below itself.
pub proof fn lemma_key_lt_irreflexive(a: Seq<u8>)
    ensures
        !key_lt(a, a),
{
}

/// The key order is transitive.
pub proof fn lemma_key_lt_transitive(a: Seq<u8>, b: Seq<u8>, c: Seq<u8>)
    requires
        key_lt(a, b),
        key_lt(b, c),
    ensures
        key_lt(a, c),
{
    let n1 = choose|n: int| #[trigger]
        same_prefix(a, b, n) && ((n == a.len() && n < b.len()) || (n < a.len() && n < b.len()
            && a[n] < b[n]));
    let n2 = choose|n: int| #[trigger]
        same_prefix(b, c, n) && ((n == b.len() && n < c.len()) || (n < b.len() && n < c.len()
            && b[n] < c[n]));
    let n = if n1 <= n2 {
        n1
    } else {
        n2
    };
    assert(same_prefix(a, c, n));
}

/// Two keys are never each below the other, and a key below another differs from it.
pub proof fn lemma_key_lt_asymmetric(a: Seq<u8>, b: Seq<u8>)
    requires
        key_lt(a, b),
    ensures
        !key_lt(b, a),
        a != b,
{
    if key_lt(b, a) {
        lemma_key_lt_transitive(a, b, a);
    }
}

/// Any two keys are equal or ordered one way.
pub proof fn lemma_key_lt_total(a: Seq<u8>, b: Seq<u8>)
    ensures
        a == b || key_lt(a, b) || key_lt(b, a),
{
    assert(same_prefix(a, b, 0));
    lemma_first_difference(a, b, 0);
    let n = first_difference(a, b, 0);
    assert(same_prefix(b, a, n));
    if n == a.len() && n == b.len() {
        assert(a =~= b);
    }
}

/// Compares two user keys byte by byte.
pub fn compare_keys(a: &Vec<u8>, b: &Vec<u8>) -> (o: KeyOrder)
    ensures
        o is Less <==> key_lt(a@, b@),
        o is Equal <==> a@ == b@,
        o is Greater <==> key_lt(b@, a@),
{
    let mut i: usize = 0;
    while i < a.len() && i < b.len()
        invariant
            same_prefix(a@, b@, i as int),
        decreases a.len() - i,
    {
        if a[i] < b[i] {
            proof {
                lemma_key_lt_asymmetric(a@, b@);
            }
            return KeyOrder::Less;
        } else if a[i] > b[i] {
            proof {
                assert(same_prefix(b@, a@, i as int));
                lemma_key_lt_asymmetric(b@, a@);
            }
            return KeyOrder::Greater;
        }
        i += 1;
    }
    if a.len() < b.len() {
        proof {
            lemma_key_lt_asymmetric(a@, b@);
        }
        KeyOrder::Less
    } else if a.len() > b.len() {
        proof {
            assert(same_prefix(b@, a@, i as int));
            lemma_key_lt_asymmetric(b@, a@);
        }
        KeyOrder::Greater
    } else {
        proof {
            assert(a@ =~= b@);
            lemma_key_lt_irreflexive(a@);
        }
        KeyOrder::Equal
    }
}

/// A user key together with the timestamp of one of its versions.
#[derive(Debug, PartialEq, Eq)]
pub struct Timestamped {
    pub ts: Timestamp,
    pub value: Vec<u8>,
}

/// Mathematical form of a [`Timestamped`] key.
pub struct TimestampedView {
    pub ts: Timestamp,
    pub value: Seq<u8>,
}

impl View for Timestamped {
    type V = TimestampedView;

    open spec fn view(&self) -> TimestampedView {
        TimestampedView { ts: self.ts, value: self.value@ }
    }
}

/// Order of timestamped keys: by user key ascending, then by timestamp descending.
pub open spec fn precedes(a: TimestampedView, b: TimestampedView) -> bool {
    key_lt(a.value, b.value) || (a.value == b.value && a.ts > b.ts)
}

pub proof fn lemma_precedes_irreflexive(a: TimestampedView)
    ensures
        !precedes(a, a),
{
    lemma_key_lt_irreflexive(a.value);
}

pub proof fn lemma_precedes_transitive(a: TimestampedView, b: TimestampedView, c: TimestampedView)
    requires
        precedes(a, b),
        precedes(b, c),
    ensures
        precedes(a, c),
{
    if key_lt(a.value, b.value) && key_lt(b.value, c.value) {
        lemma_key_lt_transitive(a.value, b.value, c.value);
    }
}

pub proof fn lemma_precedes_asymmetric(a: TimestampedView, b: TimestampedView)
    requires
        precedes(a, b),
    ensures
        !precedes(b, a),
        a != b,
{
    if precedes(b, a) {
        lemma_precedes_transitive(a, b, a);
    }
    lemma_precedes_irreflexive(a);
}

pub proof fn lemma_precedes_total(a: TimestampedView, b: TimestampedView)
    ensures
        a == b || precedes(a, b) || precedes(b, a),
{
    lemma_key_lt_total(a.value, b.value);
}

impl Timestamped {
    pub fn new(value: Vec<u8>, ts: Timestamp) -> (t: Self)
        ensures
            t.value == value,
            t.ts == ts,
    {
        Timestamped { ts, value }
    }

    /// Three-way comparison in the order of [`precedes`].
    pub fn compare(&self, other: &Timestamped) -> (o: KeyOrder)
        ensures
            o is Less <==> precedes(self@, other@),
            o is Equal <==> self@ == other@,
            o is Greater <==> precedes(other@, self@),
    {
        compare_versions(&self.value, self.ts, &other.value, other.ts)
    }
}

/// Compares `(key_a, ts_a)` with `(key_b, ts_b)` in the order of [`precedes`].
pub fn compare_versions(key_a: &Vec<u8>, ts_a: Timestamp, key_b: &Vec<u8>, ts_b: Timestamp) -> (o:
    KeyOrder)
    ensures
        o is Less <==> precedes(
            TimestampedView { ts: ts_a, value: key_a@ },
            TimestampedView { ts: ts_b, value: key_b@ },
        ),
        o is Equal <==> (key_a@ == key_b@ && ts_a == ts_b),
        o is Greater <==> precedes(
            TimestampedView { ts: ts_b, value: key_b@ },
            TimestampedView { ts: ts_a, value: key_a@ },
        ),
{
    let a = Ghost(TimestampedView { ts: ts_a, value: key_a@ });
    let b = Ghost(TimestampedView { ts: ts_b, value: key_b@ });
    proof {
        lemma_precedes_irreflexive(a@);
        if precedes(a@, b@) {
            lemma_precedes_asymmetric(a@, b@);
        }
        if precedes(b@, a@) {
            lemma_precedes_asymmetric(b@, a@);
        }
    }
    match compare_keys(key_a, key_b) {
        KeyOrder::Less => KeyOrder::Less,
        KeyOrder::Greater => KeyOrder::Greater,
        KeyOrder::Equal => {
            if ts_a > ts_b {
                KeyOrder::Less
            } else if ts_a < ts_b {
                KeyOrder::Greater
            } else {
                KeyOrder::Equal
            }
        },
    }
}

} // verus!
