use crate::hashmap::{hash_tagged, is_power_of_two, tagged_hash, HashKey, HashMap};
use crate::value::{float_to_i64, float_to_i64_spec, is_nan, is_nan_spec, Value};
use vstd::arithmetic::power2::*;
use vstd::prelude::*;

verus! {

/// Why a value cannot be a table key.
#[derive(Clone, Copy, Debug, PartialEq, Eq, Structural)]
pub enum InvalidTableKey {
    IsNaN,
    IsNil,
}

impl InvalidTableKey {
    pub fn message(&self) -> (r: &'static str)
        ensures
            *self == InvalidTableKey::IsNaN ==> r@ == "table key is NaN"@,
            *self == InvalidTableKey::IsNil ==> r@ == "table key is Nil"@,
    {
        proof {
            reveal_strlit("table key is NaN");
            reveal_strlit("table key is Nil");
        }
        match self {
            InvalidTableKey::IsNaN => "table key is NaN",
            InvalidTableKey::IsNil => "table key is Nil",
        }
    }
}

/// The key that `v` stands for in a table: nil and NaN are refused, and a
/// float equal to an `i64` is that integer.
pub open spec fn key_spec(v: Value) -> Result<Value, InvalidTableKey> {
    match v {
        Value::Nil => Err(InvalidTableKey::IsNil),
        Value::Number(b) => if is_nan_spec(b) {
            Err(InvalidTableKey::IsNaN)
        } else {
            match float_to_i64_spec(b) {
                Some(i) => Ok(Value::Integer(i)),
                None => Ok(Value::Number(b)),
            }
        },
        _ => Ok(v),
    }
}

/// The bits a float key hashes by: those of `+0.0` for both zeros, its own
/// otherwise.
pub open spec fn canonical_float_bits_spec(bits: u64) -> u64 {
    if bits == 0x8000_0000_0000_0000u64 {
        0
    } else {
        bits
    }
}

pub fn canonical_float_bits(bits: u64) -> (r: u64)
    ensures
        r == canonical_float_bits_spec(bits),
{
    if bits == 0x8000_0000_0000_0000u64 {
        0
    } else {
        bits
    }
}

/// The integer that `v` equals, if any.
pub open spec fn integer_form(v: Value) -> Option<i64> {
    match v {
        Value::Integer(i) => Some(i),
        Value::Number(b) => float_to_i64_spec(b),
        _ => None,
    }
}

/// The 0-based array position of a key equal to a positive integer.
pub open spec fn array_index_spec(v: Value) -> Option<usize> {
    match integer_form(v) {
        Some(i) => if 0 < i && i - 1 <= usize::MAX {
            Some((i - 1) as usize)
        } else {
            None
        },
        None => None,
    }
}

/// A value with the numeric identity of keys settled: never nil nor NaN, and
/// a float never equal to an `i64`.
#[derive(Clone, Copy, Debug, PartialEq, Eq, Structural)]
pub struct TableKey(pub Value);

impl TableKey {
    pub fn new(value: Value) -> (r: Result<TableKey, InvalidTableKey>)
        ensures
            match key_spec(value) {
                Ok(k) => r == Ok::<TableKey, InvalidTableKey>(TableKey(k)),
                Err(e) => r == Err::<TableKey, InvalidTableKey>(e),
            },
    {
        match value {
            Value::Nil => Err(InvalidTableKey::IsNil),
            Value::Number(b) => {
                if is_nan(b) {
                    Err(InvalidTableKey::IsNaN)
                } else {
                    match float_to_i64(b) {
                        Some(i) => Ok(TableKey(Value::Integer(i))),
                        None => Ok(TableKey(Value::Number(b))),
                    }
                }
            },
            v => Ok(TableKey(v)),
        }
    }
}

impl HashKey for TableKey {
    open spec fn hash_spec(&self) -> u64 {
        match self.0 {
            Value::Nil => tagged_hash(0, 0),
            Value::Boolean(b) => tagged_hash(
                1,
                if b {
                    1
                } else {
                    0
                },
            ),
            Value::Integer(i) => tagged_hash(2, i as u64),
            Value::Number(n) => tagged_hash(3, canonical_float_bits_spec(n)),
            Value::String(s) => tagged_hash(4, s),
            Value::Table(t) => tagged_hash(5, t),
            Value::Function(f) => tagged_hash(6, f),
            Value::Thread(t) => tagged_hash(7, t),
        }
    }

    fn hash_key(&self) -> (r: u64) {
        match self.0 {
            Value::Nil => hash_tagged(0, 0),
            Value::Boolean(b) => hash_tagged(
                1,
                if b {
                    1
                } else {
                    0
                },
            ),
            Value::Integer(i) => hash_tagged(2, i as u64),
            Value::Number(n) => hash_tagged(3, canonical_float_bits(n)),
            Value::String(s) => hash_tagged(4, s),
            Value::Table(t) => hash_tagged(5, t),
            Value::Function(f) => hash_tagged(6, f),
            Value::Thread(t) => hash_tagged(7, t),
        }
    }

    fn key_eq(&self, other: &TableKey) -> (r: bool) {
        self.0 == other.0
    }
}

/// The array position that `key` has when it is a positive integer.
pub fn to_array_index(key: Value) -> (r: Option<usize>)
    ensures
        r == array_index_spec(key),
{
    let i = match key {
        Value::Integer(i) => i,
        Value::Number(b) => match float_to_i64(b) {
            Some(i) => i,
            None => {
                return None;
            },
        },
        _ => {
            return None;
        },
    };
    if i > 0 && (i - 1) as u64 <= usize::MAX as u64 {
        Some((i - 1) as usize)
    } else {
        None
    }
}

proof fn lemma_array_index_is_key(v: Value)
    requires
        array_index_spec(v) is Some,
    ensures
        key_spec(v) == Ok::<Value, InvalidTableKey>(
            Value::Integer((array_index_spec(v)->0 + 1) as i64),
        ),
{
}

/// Relies on `num_traits::cast` from `usize` to `i64`: `Some` of the same
/// number when it is at most `i64::MAX`, `None` otherwise.
#[verifier::external_body]
fn usize_to_i64(n: usize) -> (r: Option<i64>)
    ensures
        r == if n <= i64::MAX {
            Some(n as i64)
        } else {
            None::<i64>
        },
{
    num_traits::cast::<usize, i64>(n)
}

pub fn is_nil(v: &Value) -> (r: bool)
    ensures
        r == (*v == Value::Nil),
{
    match v {
        Value::Nil => true,
        _ => false,
    }
}

/// The number of binary digits of `n`: 0 for 0, 1 for 1, 2 for 2 and 3, and so on.
pub open spec fn bit_length(n: nat) -> nat
    decreases n,
{
    if n == 0 {
        0
    } else {
        1 + bit_length(n / 2)
    }
}

proof fn lemma_bit_length_bound(n: nat, b: nat)
    requires
        n < pow2(b),
    ensures
        bit_length(n) <= b,
    decreases b,
{
    if n > 0 {
        if b == 0 {
            lemma2_to64();
        } else {
            lemma_pow2_unfold(b);
            lemma_bit_length_bound(n / 2, (b - 1) as nat);
        }
    }
}

/// The place of the highest set bit of `i`, counting from 1; 0 for 0.
pub fn highest_bit(i: usize) -> (r: usize)
    ensures
        r == bit_length(i as nat),
        r <= 64,
{
    proof {
        lemma2_to64();
        lemma_bit_length_bound(i as nat, 64);
    }
    let mut x = i;
    let mut hb: usize = 0;
    while x > 0
        invariant
            hb + bit_length(x as nat) == bit_length(i as nat),
            bit_length(i as nat) <= 64,
        decreases x,
    {
        x = x / 2;
        hb = hb + 1;
    }
    hb
}

pub open spec fn seq_sum(s: Seq<u64>) -> int
    decreases s.len(),
{
    if s.len() == 0 {
        0
    } else {
        s[0] + seq_sum(s.drop_first())
    }
}

proof fn lemma_sum_update(s: Seq<u64>, i: int, x: u64)
    requires
        0 <= i < s.len(),
    ensures
        seq_sum(s.update(i, x)) == seq_sum(s) - s[i] + x,
        s[i] <= seq_sum(s),
        seq_sum(s) >= 0,
    decreases s.len(),
{
    if i == 0 {
        assert(s.update(i, x).drop_first() =~= s.drop_first());
        lemma_sum_nonneg(s.drop_first());
    } else {
        assert(s.update(i, x).drop_first() =~= s.drop_first().update(i - 1, x));
        lemma_sum_update(s.drop_first(), i - 1, x);
    }
}

proof fn lemma_sum_nonneg(s: Seq<u64>)
    ensures
        seq_sum(s) >= 0,
    decreases s.len(),
{
    if s.len() > 0 {
        lemma_sum_nonneg(s.drop_first());
    }
}

/// Counts one more array candidate at 0-based index `i`, in the tally bucket
/// of its highest bit.
fn tally(counts: &mut Vec<u64>, total: &mut u64, i: usize)
    requires
        old(counts)@.len() == 65,
        seq_sum(old(counts)@) == *old(total),
        *old(total) < u64::MAX,
    ensures
        final(counts)@.len() == 65,
        seq_sum(final(counts)@) == *final(total),
        *final(total) == *old(total) + 1,
{
    let b = highest_bit(i);
    proof {
        lemma_sum_update(counts@, b as int, (counts@[b as int] + 1) as u64);
    }
    let c = counts[b];
    counts.set(b, c + 1);
    *total = *total + 1;
}

/// The number of non-nil values in `s`.
pub open spec fn nonnil_count(s: Seq<Value>) -> nat
    decreases s.len(),
{
    if s.len() == 0 {
        0
    } else {
        nonnil_count(s.drop_last()) + if s.last() != Value::Nil {
            1nat
        } else {
            0nat
        }
    }
}

proof fn lemma_nonnil_update(s: Seq<Value>, i: int, x: Value)
    requires
        0 <= i < s.len(),
    ensures
        nonnil_count(s.update(i, x)) + (if s[i] != Value::Nil { 1int } else { 0int })
            == nonnil_count(s) + (if x != Value::Nil { 1int } else { 0int }),
    decreases s.len(),
{
    if i < s.len() - 1 {
        assert(s.update(i, x).drop_last() == s.drop_last().update(i, x));
        lemma_nonnil_update(s.drop_last(), i, x);
    } else {
        assert(s.update(i, x).drop_last() == s.drop_last());
    }
}

/// How many of `keys` fall in an array part of `len` slots.
pub open spec fn count_in_range(keys: Seq<TableKey>, len: nat) -> nat
    decreases keys.len(),
{
    if keys.len() == 0 {
        0
    } else {
        count_in_range(keys.drop_last(), len) + if in_array(len, keys.last().0) {
            1nat
        } else {
            0nat
        }
    }
}

/// For a key as `key_spec` gives it, having an array position below `len`
/// is living in an array part of `len` slots.
proof fn lemma_index_in_range(v: Value, len: usize)
    requires
        key_spec(v) == Ok::<Value, InvalidTableKey>(v),
    ensures
        (array_index_spec(v) matches Some(ix) && ix < len) == in_array(len as nat, v),
{
}

/// One when the pending array position (0-based) is below `len` and its key
/// was not in the hash part of `t`: the one slot a pending write newly fills.
spec fn pending_fresh(t: &TableState, pending: Option<usize>, len: nat) -> nat {
    match pending {
        Some(ix) => if ix < len && !t.map@.contains_key(TableKey(Value::Integer((ix + 1) as i64))) {
            1
        } else {
            0
        },
        None => 0,
    }
}

/// Whether `v` is an integer key that lives in an array part of `len` slots.
pub open spec fn in_array(len: nat, v: Value) -> bool {
    match v {
        Value::Integer(i) => 1 <= i <= len,
        _ => false,
    }
}

/// The payload of a table: a dense array part for the keys `1..=array.len()`
/// and a hash part for every other key.
pub struct TableState {
    array: Vec<Value>,
    map: HashMap<TableKey, Value>,
}

impl TableState {
    pub closed spec fn wf(&self) -> bool {
        &&& self.map.wf()
        &&& self.array@.len() < i64::MAX
        &&& forall|tk: TableKey| #[trigger]
            self.map@.contains_key(tk) ==> key_spec(tk.0) == Ok::<Value, InvalidTableKey>(tk.0)
                && !in_array(self.array@.len(), tk.0) && self.map@[tk] != Value::Nil
    }

    /// The value held under the key `k` (a key as `key_spec` gives it); nil
    /// when there is none.
    pub closed spec fn entry(&self, k: Value) -> Value {
        if in_array(self.array@.len(), k) {
            self.array@[(k->Integer_0 - 1) as int]
        } else if self.map@.contains_key(TableKey(k)) {
            self.map@[TableKey(k)]
        } else {
            Value::Nil
        }
    }

    /// The number of keys in the hash part.
    pub closed spec fn hash_len(&self) -> nat {
        self.map@.len()
    }

    /// The keys and values of the hash part.
    pub closed spec fn hash_part(&self) -> Map<TableKey, Value> {
        self.map@
    }

    /// The slot count of the hash part.
    pub closed spec fn hash_capacity(&self) -> nat {
        self.map.capacity_spec()
    }

    /// The number of slots of the array part.
    pub closed spec fn array_len(&self) -> nat {
        self.array@.len()
    }

    /// How many of the positions `1..=n` are non-nil.
    pub open spec fn filled_upto(&self, n: nat) -> nat
        decreases n,
    {
        if n == 0 {
            0
        } else {
            self.filled_upto((n - 1) as nat) + if self.present(n as int) {
                1nat
            } else {
                0nat
            }
        }
    }

    proof fn lemma_filled_upto_array(&self, n: nat)
        requires
            self.wf(),
            n <= self.array@.len(),
        ensures
            self.filled_upto(n) == nonnil_count(self.array@.subrange(0, n as int)),
        decreases n,
    {
        if n > 0 {
            self.lemma_filled_upto_array((n - 1) as nat);
            assert(self.array@.subrange(0, n as int).drop_last() =~= self.array@.subrange(
                0,
                n - 1,
            ));
            assert(in_array(self.array@.len(), Value::Integer(n as i64)));
        }
    }

    /// Whether position `m` and every later step of the doubling search
    /// (`2 * m`, capped at `i64::MAX`) up to `i64::MAX` are non-nil.
    pub open spec fn doubling_chain_present(&self, m: int) -> bool
        decreases i64::MAX - m,
        when 1 <= m <= i64::MAX
    {
        self.present(m) && (m == i64::MAX || self.doubling_chain_present(
            if m <= i64::MAX / 2 {
                2 * m
            } else {
                i64::MAX as int
            },
        ))
    }

    pub open spec fn get_spec(&self, key: Value) -> Value {
        match key_spec(key) {
            Ok(k) => self.entry(k),
            Err(_) => Value::Nil,
        }
    }

    /// Whether `i` is a non-nil position, in the sense of borders.
    pub open spec fn present(&self, i: int) -> bool {
        i64::MIN <= i <= i64::MAX && self.entry(Value::Integer(i as i64)) != Value::Nil
    }

    pub fn new() -> (r: TableState)
        ensures
            r.wf(),
            forall|k: Value| #[trigger] r.entry(k) == Value::Nil,
            r.hash_len() == 0,
    {
        TableState { array: Vec::new(), map: HashMap::new() }
    }

    /// The number of keys in the hash part.
    pub fn hash_part_len(&self) -> (r: usize)
        requires
            self.wf(),
        ensures
            r == self.hash_len(),
    {
        self.map.len()
    }

    /// The value under `key`; nil when there is none or `key` cannot be a key.
    pub fn get(&self, key: Value) -> (r: Value)
        requires
            self.wf(),
        ensures
            r == self.get_spec(key),
    {
        if let Some(index) = to_array_index(key) {
            if index < self.array.len() {
                proof {
                    lemma_array_index_is_key(key);
                }
                return self.array[index];
            }
        }
        match TableKey::new(key) {
            Ok(k) => {
                proof {
                    assert(self.array@.len() == self.array.len());
                    if let Ok(kv) = key_spec(key) {
                        if in_array(self.array@.len(), kv) {
                            assert(array_index_spec(key) is Some);
                        }
                    }
                }
                match self.map.get(&k) {
                    Some(v) => *v,
                    None => Value::Nil,
                }
            },
            Err(_) => Value::Nil,
        }
    }

    /// A border: `0` or a non-nil position whose successor is nil. When the
    /// table holds `i64::MAX` and every position doubling up to it, that
    /// largest integer is handed back.
    pub fn length(&self) -> (r: i64)
        requires
            self.wf(),
        ensures
            r >= 0,
            r == 0 || self.present(r as int),
            r == i64::MAX || !self.present(r + 1),
            (self.array_len() == 0 || self.present(self.array_len() as int))
                && self.doubling_chain_present(self.array_len() as int + 1) ==> r == i64::MAX,
    {
        let array_len = match usize_to_i64(self.array.len()) {
            Some(n) => n,
            None => {
                return 0;
            },
        };
        if array_len > 0 && is_nil(&self.array[(array_len - 1) as usize]) {
            let mut min: i64 = 0;
            let mut max: i64 = array_len;
            let alen = self.array.len();
            while max - min > 1
                invariant
                    self.wf(),
                    alen == self.array@.len(),
                    array_len == self.array@.len(),
                    0 <= min < max <= array_len,
                    min == 0 || self.array@[min - 1] != Value::Nil,
                    self.array@[max - 1] == Value::Nil,
                decreases max - min,
            {
                let mid = min + (max - min) / 2;
                let ix = (mid - 1) as usize;
                if is_nil(&self.array[ix]) {
                    max = mid;
                } else {
                    min = mid;
                }
            }
            assert(in_array(self.array@.len(), Value::Integer(max)));
            if min > 0 {
                assert(in_array(self.array@.len(), Value::Integer(min)));
            }
            min
        } else if self.map.is_empty() {
            proof {
                if array_len > 0 {
                    assert(in_array(self.array@.len(), Value::Integer(array_len)));
                }
                self.map.lemma_size_and_capacity();
                self.map@.dom().lemma_len0_is_empty();
                assert(!self.map@.contains_key(TableKey(Value::Integer((array_len + 1) as i64))));
                assert(!self.present(array_len + 1));
            }
            array_len
        } else {
            let min = array_len;
            let mut max = array_len + 1;
            proof {
                if array_len > 0 {
                    assert(in_array(self.array@.len(), Value::Integer(array_len)));
                }
            }
            while self.map.contains_key(&TableKey(Value::Integer(max)))
                invariant
                    self.wf(),
                    array_len == self.array@.len(),
                    min == array_len,
                    min < max,
                    self.doubling_chain_present(array_len + 1) ==> self.doubling_chain_present(
                        max as int,
                    ),
                decreases i64::MAX - max,
            {
                if max == i64::MAX {
                    return i64::MAX;
                } else if max <= i64::MAX / 2 {
                    max = max * 2;
                } else {
                    max = i64::MAX;
                }
            }
            proof {
                if self.doubling_chain_present(array_len + 1) {
                    assert(self.present(max as int));
                    assert(in_array(self.array@.len(), Value::Integer(max)) == false);
                }
            }
            let mut lo = min;
            let mut hi = max;
            while hi - lo > 1
                invariant
                    self.wf(),
                    array_len == self.array@.len(),
                    array_len <= lo < hi,
                    lo == 0 || self.present(lo as int),
                    !self.map@.contains_key(TableKey(Value::Integer(hi))),
                decreases hi - lo,
            {
                let mid = lo + (hi - lo) / 2;
                if !self.map.contains_key(&TableKey(Value::Integer(mid))) {
                    hi = mid;
                } else {
                    lo = mid;
                }
            }
            lo
        }
    }
    /// Every key with a non-nil value, each once, paired with that value:
    /// what a collector walks to reach everything the table holds.
    pub fn contents(&self) -> (r: Vec<(Value, Value)>)
        requires
            self.wf(),
        ensures
            forall|i: int|
                0 <= i < r@.len() ==> (#[trigger] r@[i]).1 != Value::Nil && self.entry(r@[i].0)
                    == r@[i].1,
            forall|k: Value|
                #[trigger] self.entry(k) != Value::Nil ==> exists|i: int|
                    0 <= i < r@.len() && (#[trigger] r@[i]).0 == k,
            forall|i: int, j: int|
                0 <= i < r@.len() && 0 <= j < r@.len() && (#[trigger] r@[i]).0 == (
                #[trigger] r@[j]).0 ==> i == j,
    {
        let mut out: Vec<(Value, Value)> = Vec::new();
        let alen = self.array.len();
        let mut i: usize = 0;
        while i < alen
            invariant
                self.wf(),
                alen == self.array@.len(),
                i <= alen,
                forall|p: int|
                    0 <= p < out@.len() ==> (#[trigger] out@[p]).1 != Value::Nil && self.entry(out@[p].0)
                        == out@[p].1 && in_array(i as nat, out@[p].0),
                forall|k: Value|
                    #[trigger] self.entry(k) != Value::Nil && in_array(i as nat, k) ==> exists|p: int| 0 <= p < out@.len() && (#[trigger] out@[p]).0 == k,
                forall|p: int, q: int|
                    0 <= p < out@.len() && 0 <= q < out@.len() && (#[trigger] out@[p]).0 == (
                    #[trigger] out@[q]).0 ==> p == q,
            decreases alen - i,
        {
            let v = self.array[i];
            if !is_nil(&v) {
                let ghost o0 = out@;
                let k = Value::Integer((i + 1) as i64);
                proof {
                    assert(in_array(self.array@.len(), k));
                }
                out.push((k, v));
                proof {
                    assert forall|kk: Value|
                        #[trigger] self.entry(kk) != Value::Nil && in_array((i + 1) as nat, kk) implies exists|p: int|
                        0 <= p < out@.len() && (#[trigger] out@[p]).0 == kk by {
                        if kk == k {
                            assert(out@[o0.len() as int].0 == kk);
                        } else {
                            let p = choose|p: int| 0 <= p < o0.len() && (#[trigger] o0[p]).0 == kk;
                            assert(out@[p] == o0[p]);
                        }
                    }
                    assert forall|p: int, q: int|
                        0 <= p < out@.len() && 0 <= q < out@.len() && (#[trigger] out@[p]).0 == (
                        #[trigger] out@[q]).0 implies p == q by {
                        if p < o0.len() {
                            assert(out@[p] == o0[p]);
                        }
                        if q < o0.len() {
                            assert(out@[q] == o0[q]);
                        }
                    }
                    assert forall|p: int|
                        0 <= p < out@.len() implies (#[trigger] out@[p]).1 != Value::Nil && self.entry(
                            out@[p].0,
                        ) == out@[p].1 && in_array((i + 1) as nat, out@[p].0) by {
                        if p < o0.len() {
                            assert(out@[p] == o0[p]);
                        }
                    }
                }
            } else {
                proof {
                    assert(in_array(self.array@.len(), Value::Integer((i + 1) as i64)));
                }
            }
            i = i + 1;
        }
        let keys = self.map.keys();
        let nkeys = keys.len();
        let ghost na = out@.len();
        let mut p: usize = 0;
        while p < nkeys
            invariant
                self.wf(),
                alen == self.array@.len(),
                nkeys == keys@.len(),
                p <= nkeys,
                na <= out@.len(),
                out@.len() == na + p,
                keys@.no_duplicates(),
                forall|j: int| 0 <= j < keys@.len() ==> self.map@.contains_key(#[trigger] keys@[j]),
                forall|k: TableKey| #[trigger] self.map@.contains_key(k) ==> keys@.contains(k),
                forall|j: int|
                    0 <= j < out@.len() ==> (#[trigger] out@[j]).1 != Value::Nil && self.entry(out@[j].0)
                        == out@[j].1,
                forall|j: int| 0 <= j < na ==> in_array(alen as nat, (#[trigger] out@[j]).0),
                forall|j: int| na <= j < out@.len() ==> (#[trigger] out@[j]).0 == keys@[j - na].0,
                forall|k: Value|
                    #[trigger] self.entry(k) != Value::Nil && in_array(alen as nat, k) ==> exists|j: int|
                        0 <= j < na && (#[trigger] out@[j]).0 == k,
                forall|j: int, q: int|
                    0 <= j < out@.len() && 0 <= q < out@.len() && (#[trigger] out@[j]).0 == (
                    #[trigger] out@[q]).0 ==> j == q,
            decreases nkeys - p,
        {
            let k = keys[p];
            let ghost o0 = out@;
            proof {
                assert(self.map@.contains_key(k));
                assert(k == TableKey(k.0));
            }
            match self.map.get(&k) {
                Some(v) => {
                    out.push((k.0, *v));
                },
                None => {},
            }
            proof {
                assert forall|j: int| na <= j < out@.len() implies (#[trigger] out@[j]).0 == keys@[j
                    - na].0 by {
                    if j < o0.len() {
                        assert(out@[j] == o0[j]);
                    }
                }
                assert forall|j: int|
                    0 <= j < out@.len() implies (#[trigger] out@[j]).1 != Value::Nil && self.entry(out@[j].0)
                        == out@[j].1 by {
                    if j < o0.len() {
                        assert(out@[j] == o0[j]);
                    }
                }
                assert forall|j: int| 0 <= j < na implies in_array(alen as nat, (#[trigger] out@[j]).0) by {
                    assert(out@[j] == o0[j]);
                }
                assert forall|kk: Value|
                    #[trigger] self.entry(kk) != Value::Nil && in_array(alen as nat, kk) implies exists|j: int|
                        0 <= j < na && (#[trigger] out@[j]).0 == kk by {
                    let j = choose|j: int| 0 <= j < na && (#[trigger] o0[j]).0 == kk;
                    assert(out@[j] == o0[j]);
                }
                assert forall|j: int, q: int|
                    0 <= j < out@.len() && 0 <= q < out@.len() && (#[trigger] out@[j]).0 == (
                    #[trigger] out@[q]).0 implies j == q by {
                    if j < o0.len() {
                        assert(out@[j] == o0[j]);
                    }
                    if q < o0.len() {
                        assert(out@[q] == o0[q]);
                    }
                    if j >= na && q >= na && j != q {
                        assert(keys@[j - na] != keys@[q - na]);
                        assert(keys@[j - na] == TableKey(keys@[j - na].0));
                        assert(keys@[q - na] == TableKey(keys@[q - na].0));
                    }
                    if j < na && q >= na {
                        assert(self.map@.contains_key(keys@[q - na]));
                        assert(keys@[q - na] == TableKey(keys@[q - na].0));
                    }
                    if q < na && j >= na {
                        assert(self.map@.contains_key(keys@[j - na]));
                        assert(keys@[j - na] == TableKey(keys@[j - na].0));
                    }
                }
            }
            p = p + 1;
        }
        proof {
            assert forall|kk: Value| #[trigger] self.entry(kk) != Value::Nil implies exists|j: int|
                0 <= j < out@.len() && (#[trigger] out@[j]).0 == kk by {
                if !in_array(alen as nat, kk) {
                    assert(self.map@.contains_key(TableKey(kk)));
                    assert(keys@.contains(TableKey(kk)));
                    let q = choose|q: int| 0 <= q < keys@.len() && keys@[q] == TableKey(kk);
                    assert(out@[na + q].0 == kk);
                }
            }
        }
        out
    }

    /// The effect that `set(key, value)` has, with `r` its result.
    pub open spec fn set_spec(
        before: &TableState,
        key: Value,
        value: Value,
        after: &TableState,
        r: Result<Value, InvalidTableKey>,
    ) -> bool {
        match key_spec(key) {
            Err(e) => r == Err::<Value, InvalidTableKey>(e) && *after == *before,
            Ok(k) => r == Ok::<Value, InvalidTableKey>(before.entry(k)) && forall|q: Value| #[trigger]
                after.entry(q) == if q == k {
                    value
                } else {
                    before.entry(q)
                },
        }
    }

    /// Puts `value` under `key` and hands back what was there (nil if
    /// nothing). A nil value clears the key. Fails, changing nothing, when
    /// `key` is nil or NaN. The hash part must be far below the address
    /// space, so that its slot count can still double.
    pub fn set(&mut self, key: Value, value: Value) -> (r: Result<Value, InvalidTableKey>)
        requires
            old(self).wf(),
            old(self).hash_len() <= usize::MAX / 8,
        ensures
            final(self).wf(),
            Self::set_spec(old(self), key, value, final(self), r),
            final(self).hash_len() <= old(self).hash_len() + 1,
            key_spec(key) is Ok && old(self).entry(key_spec(key)->Ok_0) != Value::Nil
                ==> final(self).hash_len() <= old(self).hash_len(),
            forall|tk: TableKey| #[trigger]
                final(self).hash_part().contains_key(tk) ==> !in_array(final(self).array_len(), tk.0),
            final(self).array_len() >= old(self).array_len(),
            final(self).hash_capacity() >= old(self).hash_capacity(),
            array_index_spec(key) matches Some(i) && i < old(self).array_len() ==> final(self).array_len()
                == old(self).array_len() && final(self).hash_part() == old(self).hash_part(),
            key_spec(key) is Ok && value != Value::Nil && !(array_index_spec(key) matches Some(i) && i
                < old(self).array_len()) && !(old(self).hash_len() * 4 < old(self).hash_capacity() * 3)
                ==> final(self).array_len() > old(self).array_len() || final(self).hash_capacity() >= 2
                * old(self).hash_capacity(),
            final(self).array_len() > old(self).array_len() ==> is_power_of_two(final(self).array_len())
                && 2 * final(self).filled_upto(final(self).array_len()) > final(self).array_len(),
    {
        let index_key = to_array_index(key);
        if let Some(index) = index_key {
            if index < self.array.len() {
                proof {
                    lemma_array_index_is_key(key);
                }
                let previous = self.array[index];
                self.array.set(index, value);
                proof {
                    let k = Value::Integer((index + 1) as i64);
                    assert forall|q: Value| #[trigger] self.entry(q) == if q == k {
                        value
                    } else {
                        old(self).entry(q)
                    } by {
                        if in_array(self.array@.len(), q) && q != k {
                            assert(q->Integer_0 - 1 != index);
                        }
                    }
                }
                return Ok(previous);
            }
        }
        let hash_key = match TableKey::new(key) {
            Ok(k) => k,
            Err(e) => {
                return Err(e);
            },
        };
        proof {
            assert(self.array@.len() == self.array.len());
            if in_array(self.array@.len(), hash_key.0) {
                assert(array_index_spec(key) is Some);
            }
            self.map.lemma_size_and_capacity();
        }
        if is_nil(&value) {
            let removed = self.map.remove(&hash_key);
            proof {
                assert(self.map@.len() <= old(self).map@.len()) by {
                    vstd::set_lib::lemma_len_subset(self.map@.dom(), old(self).map@.dom());
                }
            }
            proof {
                let k = hash_key.0;
                assert(hash_key == TableKey(k));
                assert forall|q: Value| #[trigger] self.entry(q) == if q == k {
                    value
                } else {
                    old(self).entry(q)
                } by {
                    if q != k {
                        assert(TableKey(q) != hash_key);
                    }
                }
            }
            return Ok(
                match removed {
                    Some(v) => v,
                    None => Value::Nil,
                },
            );
        }
        if !self.map.has_spare_capacity() {
            let grew = self.rebalance(index_key);
            proof {
                assert forall|q: Value| #[trigger] self.entry(q) == old(self).entry(q) by {}
            }
            if let Some(index) = index_key {
                if index < self.array.len() {
                    proof {
                        lemma_array_index_is_key(key);
                    }
                    let previous = self.array[index];
                    let ghost before = *self;
                    self.array.set(index, value);
                    proof {
                        let k = Value::Integer((index + 1) as i64);
                        assert(before.entry(k) == old(self).entry(k));
                        assert forall|q: Value| #[trigger] self.entry(q) == if q == k {
                            value
                        } else {
                            old(self).entry(q)
                        } by {
                            assert(before.entry(q) == old(self).entry(q));
                            if in_array(self.array@.len(), q) && q != k {
                                assert(q->Integer_0 - 1 != index);
                            }
                        }
                        assert(self.map@.len() <= old(self).map@.len());
                        assert(in_array(before.array@.len(), k));
                        assert(before.entry(k) == before.array@[index as int]);
                        if old(self).map@.contains_key(TableKey(k)) {
                            assert(old(self).entry(k) != Value::Nil);
                        } else {
                            assert(!in_array(old(self).array@.len(), k));
                        }
                        lemma_nonnil_update(before.array@, index as int, value);
                        self.lemma_filled_upto_array(self.array@.len());
                        assert(self.array@.subrange(0, self.array@.len() as int) =~= self.array@);
                    }
                    return Ok(previous);
                }
            }
            proof {
                if grew {
                    assert(2 * nonnil_count(self.array@) > self.array@.len());
                }
            }
            proof {
                assert(self.array@.len() == self.array.len());
                if in_array(self.array@.len(), hash_key.0) {
                    assert(array_index_spec(key) is Some);
                }
            }
        }
        let ghost before = *self;
        proof {
            self.map.lemma_size_and_capacity();
            assert(!in_array(self.array@.len(), hash_key.0));
            assert(before.entry(hash_key.0) == old(self).entry(hash_key.0));
        }
        let previous = self.map.insert(hash_key, value);
        proof {
            let k = hash_key.0;
            assert(hash_key == TableKey(k));
            assert forall|q: Value| #[trigger] self.entry(q) == if q == k {
                value
            } else {
                old(self).entry(q)
            } by {
                assert(before.entry(q) == old(self).entry(q));
                if q != k {
                    assert(TableKey(q) != hash_key);
                }
            }
            if self.array@.len() > old(self).array@.len() {
                self.lemma_filled_upto_array(self.array@.len());
                assert(self.array@.subrange(0, self.array@.len() as int) =~= self.array@);
            }
        }
        Ok(
            match previous {
                Some(v) => v,
                None => Value::Nil,
            },
        )
    }

    /// Makes room for a key that fits neither part: the array part grows to
    /// the largest power of two that candidates would fill more than half,
    /// taking the keys now in its range out of the hash part; when it would
    /// not grow, the hash part at least doubles instead. No entry changes.
    fn rebalance(&mut self, pending: Option<usize>) -> (grew: bool)
        requires
            old(self).wf(),
            old(self).hash_len() <= usize::MAX / 8,
            !(old(self).map@.len() * 4 < old(self).map.capacity_spec() * 3),
            pending matches Some(ix) ==> ix < i64::MAX,
        ensures
            final(self).wf(),
            forall|q: Value| #[trigger] final(self).entry(q) == old(self).entry(q),
            final(self).hash_len() <= old(self).hash_len(),
            final(self).map.capacity_spec() >= old(self).map.capacity_spec(),
            !grew ==> final(self).map.capacity_spec() >= 2 * old(self).map.capacity_spec()
                && final(self).array@ == old(self).array@,
            grew ==> final(self).array@.len() > old(self).array@.len() && is_power_of_two(
                final(self).array@.len(),
            ) && 2 * (nonnil_count(final(self).array@) + pending_fresh(
                old(self),
                pending,
                final(self).array@.len(),
            )) > final(self).array@.len(),
    {
        let mut counts: Vec<u64> = Vec::new();
        let mut c: usize = 0;
        while c < 65
            invariant
                c <= 65,
                counts@.len() == c,
                seq_sum(counts@) == 0,
                forall|j: int| 0 <= j < c ==> #[trigger] counts@[j] == 0,
            decreases 65 - c,
        {
            let ghost prev = counts@;
            counts.push(0);
            proof {
                lemma_sum_zero(counts@);
            }
            c = c + 1;
        }
        let mut total: u64 = 0;
        let mut filled: u64 = 0;
        let alen = self.array.len();
        let mut i: usize = 0;
        while i < alen
            invariant
                self == old(self),
                alen == self.array@.len(),
                alen < i64::MAX,
                i <= alen,
                counts@.len() == 65,
                seq_sum(counts@) == total,
                total <= i,
                filled <= i,
                filled == nonnil_count(self.array@.subrange(0, i as int)),
            decreases alen - i,
        {
            assert(self.array@.subrange(0, i + 1).drop_last() =~= self.array@.subrange(0, i as int));
            if !is_nil(&self.array[i]) {
                tally(&mut counts, &mut total, i);
                filled = filled + 1;
            }
            i = i + 1;
        }
        assert(self.array@.subrange(0, alen as int) =~= self.array@);
        let keys = self.map.keys();
        let nkeys = keys.len();
        let mut p: usize = 0;
        while p < nkeys
            invariant
                self == old(self),
                filled == nonnil_count(self.array@),
                filled <= alen,
                alen < i64::MAX,
                nkeys == keys@.len(),
                nkeys <= usize::MAX / 8,
                p <= nkeys,
                counts@.len() == 65,
                seq_sum(counts@) == total,
                total <= alen + p,
            decreases nkeys - p,
        {
            if let Some(ix) = to_array_index(keys[p].0) {
                tally(&mut counts, &mut total, ix);
            }
            p = p + 1;
        }
        if let Some(ix) = pending {
            tally(&mut counts, &mut total, ix);
        }
        // The largest power of two `size` such that the candidates below
        // `size` fill more than half of `[0, size)`.
        let mut optimal: u128 = 0;
        let mut acc: u64 = 0;
        let mut b: usize = 0;
        let mut size: u128 = 1;
        let mut done = false;
        proof {
            assert(is_power_of_two(1));
            lemma2_to64();
            assert(counts@.subrange(0, 65) =~= counts@);
        }
        while b < 65 && !done
            invariant
                b <= 65,
                counts@.len() == 65,
                seq_sum(counts@) == total,
                acc + seq_sum(counts@.subrange(b as int, 65)) == total,
                size == pow2(b as nat),
                optimal <= size,
                is_power_of_two(size as nat),
                optimal == 0 || is_power_of_two(optimal as nat),
            decreases 65 - b, if done { 0int } else { 1int },
        {
            if size / 2 >= total as u128 {
                done = true;
            } else {
                proof {
                    let sub = counts@.subrange(b as int, 65);
                    assert(sub.drop_first() =~= counts@.subrange(b + 1, 65));
                    lemma_sum_nonneg(sub.drop_first());
                    lemma_pow2_unfold((b + 1) as nat);
                    lemma_pow2_strictly_increases(b as nat, 65);
                    lemma2_to64_rest();
                }
                if counts[b] > 0 {
                    acc = acc + counts[b];
                    if acc as u128 > size / 2 {
                        optimal = size;
                    }
                }
                proof {
                    assert((2 * size) as nat / 2 == size as nat);
                    assert(is_power_of_two((2 * size) as nat));
                }
                size = size * 2;
                b = b + 1;
            }
        }
        let old_len = self.array.len();
        if optimal > old_len as u128 && optimal < i64::MAX as u128 && optimal <= usize::MAX as u128 {
            let target = optimal as usize;
            // What the array part of `target` slots will hold: what it holds
            // now, the keys it takes over, and the pending key when it is new.
            let mut taken: u64 = 0;
            let mut p: usize = 0;
            while p < nkeys
                invariant
                    self == old(self),
                    self.wf(),
                    nkeys == keys@.len(),
                    nkeys <= usize::MAX / 8,
                    p <= nkeys,
                    forall|j: int| 0 <= j < keys@.len() ==> self.map@.contains_key(#[trigger] keys@[j]),
                    taken == count_in_range(keys@.subrange(0, p as int), target as nat),
                    taken <= p,
                decreases nkeys - p,
            {
                assert(keys@.subrange(0, p + 1).drop_last() =~= keys@.subrange(0, p as int));
                proof {
                    assert(self.map@.contains_key(keys@[p as int]));
                    lemma_index_in_range(keys@[p as int].0, target);
                }
                if let Some(ix) = to_array_index(keys[p].0) {
                    if ix < target {
                        taken = taken + 1;
                    }
                }
                p = p + 1;
            }
            assert(keys@.subrange(0, nkeys as int) =~= keys@);
            let fresh: u64 = match pending {
                Some(ix) => if ix < target && !self.map.contains_key(
                    &TableKey(Value::Integer((ix + 1) as i64)),
                ) {
                    1
                } else {
                    0
                },
                None => 0,
            };
            if filled + taken + fresh > (target / 2) as u64 {
                self.grow_array(target, keys);
                return true;
            }
        }
        let n = self.map.len();
        self.map.reserve(n);
        false
    }

    /// Lengthens the array part to `target` slots and moves into it every key
    /// of the hash part that now falls in its range.
    fn grow_array(&mut self, target: usize, keys: Vec<TableKey>)
        requires
            old(self).wf(),
            old(self).array@.len() < target < i64::MAX,
            keys@.no_duplicates(),
            forall|i: int| 0 <= i < keys@.len() ==> old(self).map@.contains_key(#[trigger] keys@[i]),
            forall|k: TableKey| #[trigger] old(self).map@.contains_key(k) ==> keys@.contains(k),
        ensures
            final(self).wf(),
            forall|q: Value| #[trigger] final(self).entry(q) == old(self).entry(q),
            final(self).hash_len() <= old(self).hash_len(),
            final(self).map.capacity_spec() == old(self).map.capacity_spec(),
            final(self).array@.len() == target,
            nonnil_count(final(self).array@) == nonnil_count(old(self).array@) + count_in_range(
                keys@,
                target as nat,
            ),
    {
        let ghost m0 = self.map@;
        while self.array.len() < target
            invariant
                self.map == old(self).map,
                old(self).array@.len() <= self.array@.len() <= target,
                nonnil_count(self.array@) == nonnil_count(old(self).array@),
                self.array@.subrange(0, old(self).array@.len() as int) == old(self).array@,
                forall|j: int|
                    old(self).array@.len() <= j < self.array@.len() ==> #[trigger] self.array@[j]
                        == Value::Nil,
            decreases target - self.array@.len(),
        {
            let ghost prev = self.array@;
            self.array.push(Value::Nil);
            proof {
                assert(self.array@.drop_last() =~= prev);
                assert(self.array@.subrange(0, old(self).array@.len() as int) =~= prev.subrange(
                    0,
                    old(self).array@.len() as int,
                ));
            }
        }
        proof {
            assert forall|q: Value| #[trigger] self.logical(q) == old(self).entry(q) by {
                if in_array(old(self).array@.len(), q) {
                    assert(old(self).array@[q->Integer_0 - 1] == self.array@.subrange(
                        0,
                        old(self).array@.len() as int,
                    )[q->Integer_0 - 1]);
                }
            }
        }
        let nkeys = keys.len();
        let mut p: usize = 0;
        while p < nkeys
            invariant
                nkeys == keys@.len(),
                p <= nkeys,
                self.map.wf(),
                self.array@.len() == target,
                target < i64::MAX,
                m0 == old(self).map@,
                old(self).wf(),
                keys@.no_duplicates(),
                forall|i: int| 0 <= i < keys@.len() ==> m0.contains_key(#[trigger] keys@[i]),
                forall|k: TableKey| #[trigger] m0.contains_key(k) ==> keys@.contains(k),
                forall|k: TableKey| #[trigger]
                    self.map@.contains_key(k) ==> m0.contains_key(k) && self.map@[k] == m0[k],
                forall|k: TableKey| #[trigger]
                    self.map@.contains_key(k) && in_array(target as nat, k.0) ==> self.array@[k.0->Integer_0
                        - 1] == Value::Nil,
                forall|i: int|
                    0 <= i < p && in_array(target as nat, (#[trigger] keys@[i]).0) ==> !self.map@.contains_key(
                        keys@[i],
                    ),
                forall|q: Value| #[trigger] self.logical(q) == old(self).entry(q),
                self.map@.len() <= m0.len(),
                self.map.capacity_spec() == old(self).map.capacity_spec(),
                forall|i: int| p <= i < nkeys ==> self.map@.contains_key(#[trigger] keys@[i]),
                nonnil_count(self.array@) == nonnil_count(old(self).array@) + count_in_range(
                    keys@.subrange(0, p as int),
                    target as nat,
                ),
            decreases nkeys - p,
        {
            let k = keys[p];
            let ghost arr0 = self.array@;
            let ghost map0 = self.map@;
            proof {
                assert(m0.contains_key(k));
                assert(keys@.subrange(0, p + 1).drop_last() =~= keys@.subrange(0, p as int));
                assert(self.map@.contains_key(k));
                lemma_index_in_range(k.0, target);
            }
            if let Some(ix) = to_array_index(k.0) {
                if ix < self.array.len() {
                    proof {
                        lemma_array_index_is_key(k.0);
                    }
                    let ghost mp = self.map@;
                    let ghost lg = |q: Value| self.logical(q);
                    proof {
                        assert(key_spec(k.0) == Ok::<Value, InvalidTableKey>(k.0));
                        assert(k.0 == Value::Integer((ix + 1) as i64));
                        assert(k == TableKey(k.0));
                        self.map.lemma_size_and_capacity();
                    }
                    match self.map.remove(&k) {
                        Some(v) => {
                            proof {
                                assert(arr0[ix as int] == Value::Nil);
                                lemma_nonnil_update(arr0, ix as int, v);
                                assert(mp.contains_key(k));
                                assert(lg(k.0) == v);
                                assert(self.map@.len() < mp.len());
                            }
                            self.array.set(ix, v);
                            proof {
                                assert forall|q: Value| #[trigger] self.logical(q) == old(self).entry(q) by {
                                    assert(lg(q) == old(self).entry(q));
                                    if q == k.0 {
                                    } else if self.map@.contains_key(TableKey(q)) {
                                        assert(mp.contains_key(TableKey(q)));
                                    }
                                }
                                assert forall|kk: TableKey| #[trigger]
                                    self.map@.contains_key(kk) && in_array(target as nat, kk.0)
                                        implies self.array@[kk.0->Integer_0 - 1] == Value::Nil by {
                                    assert(mp.contains_key(kk));
                                    assert(kk != k);
                                }
                            }
                        },
                        None => {
                            proof {
                                assert(false);
                            }
                        },
                    }
                    proof {
                        assert forall|i: int|
                            0 <= i < p + 1 && in_array(target as nat, (#[trigger] keys@[i]).0)
                                implies !self.map@.contains_key(keys@[i]) by {
                            if i < p {
                                assert(!mp.contains_key(keys@[i]));
                            }
                        }
                        assert forall|i: int| p + 1 <= i < nkeys implies self.map@.contains_key(
                            #[trigger] keys@[i],
                        ) by {
                            assert(keys@[i] != k);
                            assert(mp.contains_key(keys@[i]));
                        }
                    }
                }
            }
            p = p + 1;
        }
        proof {
            assert(keys@.subrange(0, nkeys as int) =~= keys@);
            assert forall|tk: TableKey| #[trigger] self.map@.contains_key(tk) implies key_spec(tk.0)
                == Ok::<Value, InvalidTableKey>(tk.0) && !in_array(self.array@.len(), tk.0)
                && self.map@[tk] != Value::Nil by {
                assert(m0.contains_key(tk));
                assert(keys@.contains(tk));
                let i = choose|i: int| 0 <= i < keys@.len() && keys@[i] == tk;
            }
            assert forall|q: Value| #[trigger] self.entry(q) == old(self).entry(q) by {
                assert(self.logical(q) == old(self).entry(q));
            }
        }
    }

    /// The hash part first, then the array part: the value under `k` while
    /// keys move between the parts.
    closed spec fn logical(&self, k: Value) -> Value {
        if self.map@.contains_key(TableKey(k)) {
            self.map@[TableKey(k)]
        } else if in_array(self.array@.len(), k) {
            self.array@[(k->Integer_0 - 1) as int]
        } else {
            Value::Nil
        }
    }
}

proof fn lemma_sum_zero(s: Seq<u64>)
    requires
        forall|j: int| 0 <= j < s.len() ==> #[trigger] s[j] == 0,
    ensures
        seq_sum(s) == 0,
    decreases s.len(),
{
    if s.len() > 0 {
        lemma_sum_zero(s.drop_first());
    }
}

/// Reading a key back after setting it gives the value set; after setting
/// it to nil, reading gives nil. Other keys keep their values.
pub proof fn lemma_get_after_set(
    before: &TableState,
    key: Value,
    value: Value,
    after: &TableState,
    r: Result<Value, InvalidTableKey>,
    other: Value,
)
    requires
        TableState::set_spec(before, key, value, after, r),
        key_spec(key) is Ok,
        key_spec(other) != key_spec(key),
    ensures
        after.get_spec(key) == value,
        after.get_spec(other) == before.get_spec(other),
{
}

/// A key that cannot be a key leaves the table as it was.
pub proof fn lemma_invalid_key_changes_nothing(
    before: &TableState,
    key: Value,
    value: Value,
    after: &TableState,
    r: Result<Value, InvalidTableKey>,
)
    requires
        TableState::set_spec(before, key, value, after, r),
        key == Value::Nil || (key matches Value::Number(b) && is_nan_spec(b)),
    ensures
        *after == *before,
        key == Value::Nil ==> r == Err::<Value, InvalidTableKey>(InvalidTableKey::IsNil),
        key != Value::Nil ==> r == Err::<Value, InvalidTableKey>(InvalidTableKey::IsNaN),
{
}

impl Default for TableState {
    fn default() -> (r: Self)
        ensures
            r.wf(),
            forall|k: Value| #[trigger] r.entry(k) == Value::Nil,
            r.hash_len() == 0,
    {
        TableState::new()
    }
}

} // verus!
