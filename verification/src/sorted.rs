use vstd::prelude::*;

verus! {

/// A value that an integer key identifies and orders.
pub trait Keyed: Copy {
    /// The key: two values with the same key are the same value.
    spec fn key(&self) -> int;

    proof fn key_identifies(a: Self, b: Self)
        requires
            a.key() == b.key(),
        ensures
            a == b,
    ;

    /// The key as a machine integer.
    fn key_of(&self) -> (k: u128)
        ensures
            k == self.key(),
    ;
}

/// Strictly ascending by key: sorted, and nothing occurs twice.
pub open spec fn ascending<T: Keyed>(s: Seq<T>) -> bool {
    forall|i: int, j: int| 0 <= i < j < s.len() ==> (#[trigger] s[i]).key() < (#[trigger] s[j]).key()
}

/// Both sequences hold the same values, whatever the order and the repetitions.
pub open spec fn same_elements<T>(a: Seq<T>, b: Seq<T>) -> bool {
    forall|x: T| a.contains(x) <==> b.contains(x)
}

/// An ascending sequence is determined by the values it holds.
pub proof fn lemma_ascending_unique<T: Keyed>(a: Seq<T>, b: Seq<T>)
    requires
        ascending(a),
        ascending(b),
        same_elements(a, b),
    ensures
        a == b,
    decreases a.len(),
{
    if a.len() == 0 {
        if b.len() > 0 {
            assert(b.contains(b[0]));
        }
        assert(a =~= b);
    } else {
        let x = a.last();
        assert(a.contains(x));
        assert(b.contains(x));
        let y = b.last();
        assert(b.contains(y));
        assert(a.contains(y));
        let ix = choose|i: int| 0 <= i < b.len() && b[i] == x;
        let iy = choose|i: int| 0 <= i < a.len() && a[i] == y;
        assert(x.key() <= y.key()) by {
            if ix < b.len() - 1 {
                assert(b[ix].key() < b[b.len() - 1].key());
            }
        }
        assert(y.key() <= x.key()) by {
            if iy < a.len() - 1 {
                assert(a[iy].key() < a[a.len() - 1].key());
            }
        }
        T::key_identifies(x, y);
        let a0 = a.drop_last();
        let b0 = b.drop_last();
        assert forall|z: T| a0.contains(z) <==> b0.contains(z) by {
            if a0.contains(z) {
                let i = choose|i: int| 0 <= i < a0.len() && a0[i] == z;
                assert(a[i] == z);
                assert(a[i].key() < a[a.len() - 1].key());
                assert(a.contains(z));
                let j = choose|j: int| 0 <= j < b.len() && b[j] == z;
                assert(j < b.len() - 1);
                assert(b0[j] == z);
            }
            if b0.contains(z) {
                let i = choose|i: int| 0 <= i < b0.len() && b0[i] == z;
                assert(b[i] == z);
                assert(b[i].key() < b[b.len() - 1].key());
                assert(b.contains(z));
                let j = choose|j: int| 0 <= j < a.len() && a[j] == z;
                assert(j < a.len() - 1);
                assert(a0[j] == z);
            }
        }
        lemma_ascending_unique(a0, b0);
        assert(a =~= a0.push(x));
        assert(b =~= b0.push(y));
    }
}

/// Taking one more element of a sequence adds that element to what the prefix contains.
proof fn lemma_take_step<T>(s: Seq<T>, i: int, x: T)
    requires
        0 <= i < s.len(),
    ensures
        s.take(i + 1).contains(x) <==> s.take(i).contains(x) || x == s[i],
{
    assert(s.take(i + 1) =~= s.take(i).push(s[i]));
    lemma_push_contains(s.take(i), s[i], x);
}

/// What a sequence contains after one more value is pushed.
pub proof fn lemma_push_contains<T>(s: Seq<T>, v: T, x: T)
    ensures
        s.push(v).contains(x) <==> s.contains(x) || x == v,
{
    let t = s.push(v);
    if s.contains(x) {
        let i = choose|i: int| 0 <= i < s.len() && s[i] == x;
        assert(t[i] == x);
    }
    if x == v {
        assert(t[s.len() as int] == x);
    }
    if t.contains(x) {
        let i = choose|i: int| 0 <= i < t.len() && t[i] == x;
        if i < s.len() {
            assert(s[i] == x);
        }
    }
}

/// A copy of a vector of plain values.
pub fn copy_of<T: Copy>(v: &Vec<T>) -> (r: Vec<T>)
    ensures
        r@ == v@,
{
    let mut r: Vec<T> = Vec::new();
    let mut i: usize = 0;
    while i < v.len()
        invariant
            i <= v.len(),
            r@ == v@.take(i as int),
        decreases v.len() - i,
    {
        r.push(v[i]);
        proof {
            assert(v@.take(i + 1) =~= v@.take(i as int).push(v@[i as int]));
        }
        i = i + 1;
    }
    proof {
        assert(v@.take(i as int) =~= v@);
    }
    r
}

/// Merges two ascending sequences into the ascending sequence of the values
/// that occur in either.
pub fn union<T: Keyed>(a: &Vec<T>, b: &Vec<T>) -> (r: Vec<T>)
    requires
        ascending(a@),
        ascending(b@),
    ensures
        ascending(r@),
        forall|x: T| r@.contains(x) <==> a@.contains(x) || b@.contains(x),
{
    let mut r: Vec<T> = Vec::new();
    let mut i: usize = 0;
    let mut j: usize = 0;
    while i < a.len() || j < b.len()
        invariant
            i <= a.len(),
            j <= b.len(),
            ascending(a@),
            ascending(b@),
            ascending(r@),
            forall|k: int, l: int|
                0 <= k < r.len() && i <= l < a.len() ==> (#[trigger] r[k]).key() < (
                #[trigger] a[l]).key(),
            forall|k: int, l: int|
                0 <= k < r.len() && j <= l < b.len() ==> (#[trigger] r[k]).key() < (
                #[trigger] b[l]).key(),
            forall|x: T|
                r@.contains(x) <==> a@.take(i as int).contains(x) || b@.take(j as int).contains(x),
        decreases a.len() - i + b.len() - j,
    {
        let ghost r0 = r@;
        let take_a: bool;
        let take_b: bool;
        if j >= b.len() {
            take_a = true;
            take_b = false;
        } else if i >= a.len() {
            take_a = false;
            take_b = true;
        } else {
            let ka = a[i].key_of();
            let kb = b[j].key_of();
            take_a = ka <= kb;
            take_b = kb <= ka;
            proof {
                if ka == kb {
                    T::key_identifies(a[i as int], b[j as int]);
                }
            }
        }
        let next = if take_a { a[i] } else { b[j] };
        let ghost i0 = i as int;
        let ghost j0 = j as int;
        r.push(next);
        if take_a {
            i = i + 1;
        }
        if take_b {
            j = j + 1;
        }
        proof {
            assert forall|x: T|
                r@.contains(x) <==> a@.take(i as int).contains(x) || b@.take(j as int).contains(
                    x,
                ) by {
                lemma_push_contains(r0, next, x);
                if take_a {
                    lemma_take_step(a@, i0, x);
                }
                if take_b {
                    lemma_take_step(b@, j0, x);
                }
            }
        }
    }
    proof {
        assert(a@.take(i as int) =~= a@);
        assert(b@.take(j as int) =~= b@);
    }
    r
}

/// The values of `v` at positions from `lo` up to `hi`.
pub open spec fn in_range<T>(v: Seq<T>, lo: int, hi: int, x: T) -> bool {
    exists|i: int| lo <= i < hi && 0 <= i < v.len() && v[i] == x
}

fn sort_range<T: Keyed>(v: &Vec<T>, lo: usize, hi: usize) -> (r: Vec<T>)
    requires
        lo <= hi <= v.len(),
    ensures
        ascending(r@),
        forall|x: T| r@.contains(x) <==> in_range(v@, lo as int, hi as int, x),
    decreases hi - lo,
{
    if hi - lo == 0 {
        let r: Vec<T> = Vec::new();
        r
    } else if hi - lo == 1 {
        let mut r: Vec<T> = Vec::new();
        r.push(v[lo]);
        proof {
            assert(r@[0] == v@[lo as int]);
            assert forall|x: T| r@.contains(x) <==> in_range(v@, lo as int, hi as int, x) by {
                if r@.contains(x) {
                    assert(v@[lo as int] == x);
                }
            }
        }
        r
    } else {
        let mid = lo + (hi - lo) / 2;
        let left = sort_range(v, lo, mid);
        let right = sort_range(v, mid, hi);
        let r = union(&left, &right);
        proof {
            assert forall|x: T| r@.contains(x) <==> in_range(v@, lo as int, hi as int, x) by {
                if in_range(v@, lo as int, hi as int, x) {
                    let i = choose|i: int| lo <= i < hi && 0 <= i < v@.len() && v@[i] == x;
                    if i < mid {
                        assert(in_range(v@, lo as int, mid as int, x));
                    } else {
                        assert(in_range(v@, mid as int, hi as int, x));
                    }
                }
                if in_range(v@, lo as int, mid as int, x) {
                    let i = choose|i: int| lo <= i < mid && 0 <= i < v@.len() && v@[i] == x;
                    assert(lo <= i < hi && v@[i] == x);
                }
                if in_range(v@, mid as int, hi as int, x) {
                    let i = choose|i: int| mid <= i < hi && 0 <= i < v@.len() && v@[i] == x;
                    assert(lo <= i < hi && v@[i] == x);
                }
            }
        }
        r
    }
}

/// Sorts by key and drops repetitions: the result is the ascending sequence
/// of the values that occur in `v`.
pub fn sort_dedup<T: Keyed>(v: &Vec<T>) -> (r: Vec<T>)
    ensures
        ascending(r@),
        same_elements(r@, v@),
{
    let r = sort_range(v, 0, v.len());
    proof {
        assert forall|x: T| r@.contains(x) <==> v@.contains(x) by {
            if v@.contains(x) {
                let i = choose|i: int| 0 <= i < v@.len() && v@[i] == x;
                assert(in_range(v@, 0, v@.len() as int, x));
            }
        }
    }
    r
}

/// Where the value with key `k` stands in an ascending sequence, if it holds one.
pub fn position<T: Keyed>(v: &Vec<T>, k: u128) -> (found: Option<usize>)
    requires
        ascending(v@),
    ensures
        match found {
            Some(i) => i < v.len() && v[i as int].key() == k,
            None => forall|i: int| 0 <= i < v.len() ==> (#[trigger] v[i]).key() != k,
        },
{
    let mut lo: usize = 0;
    let mut hi: usize = v.len();
    while lo < hi
        invariant
            lo <= hi <= v.len(),
            ascending(v@),
            forall|i: int| 0 <= i < lo ==> (#[trigger] v[i]).key() < k,
            forall|i: int| hi <= i < v.len() ==> (#[trigger] v[i]).key() > k,
        decreases hi - lo,
    {
        let mid = lo + (hi - lo) / 2;
        let km = v[mid].key_of();
        if km == k {
            return Some(mid);
        } else if km < k {
            proof {
                assert forall|i: int| 0 <= i < mid + 1 implies (#[trigger] v[i]).key() < k by {
                    if i < mid {
                        assert(v[i].key() < v[mid as int].key());
                    }
                }
            }
            lo = mid + 1;
        } else {
            proof {
                assert forall|i: int| mid <= i < v.len() implies (#[trigger] v[i]).key() > k by {
                    if mid < i {
                        assert(v[mid as int].key() < v[i].key());
                    }
                }
            }
            hi = mid;
        }
    }
    None
}

} // verus!
