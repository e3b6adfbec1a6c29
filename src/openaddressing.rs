//! A table that resolves collisions by bounded linear probing: a key lives
//! within `MAX_PROBE` slots from the one its digest selects, clipped at the
//! end of the array. When no slot of that window can take a new entry, the
//! table is rebuilt into a longer array of randomly chosen length.

use crate::digest::{compute_bucket_index, compute_hash, digest_of, map_get, slot_of};
use vstd::prelude::*;

verus! {

pub const INITIAL_SIZE: usize = 16;

pub const MAX_PROBE: usize = 4;

/// One occupied slot. A slot marked `deleted` holds no live mapping but
/// stays occupied.
#[derive(Debug)]
pub struct Bucket {
    pub key: String,
    pub hashed_key: u64,
    pub value: i32,
    pub deleted: bool,
}

/// One past the last slot of the probe window of digest `d` in an array of
/// `len` slots.
pub open spec fn probe_end(len: nat, d: u64) -> int {
    let e = slot_of(d, len) + MAX_PROBE;
    if e < len {
        e
    } else {
        len as int
    }
}

/// Slot `p` holds a live entry for digest `x`.
pub open spec fn live_at(s: Seq<Option<Bucket>>, x: u64, p: int) -> bool {
    &&& s[p] is Some
    &&& s[p]->Some_0.hashed_key == x
    &&& !s[p]->Some_0.deleted
}

/// The value of the first live entry for `x` at or after `i` in the window
/// of `x`.
pub open spec fn first_live_from(s: Seq<Option<Bucket>>, x: u64, i: int) -> Option<i32>
    decreases probe_end(s.len(), x) - i,
{
    if i < 0 || i >= probe_end(s.len(), x) {
        None
    } else if live_at(s, x, i) {
        Some(s[i]->Some_0.value)
    } else {
        first_live_from(s, x, i + 1)
    }
}

/// The value of the first live entry for `x` in its window.
pub open spec fn first_live(s: Seq<Option<Bucket>>, x: u64) -> Option<i32> {
    first_live_from(s, x, slot_of(x, s.len()))
}

/// The first slot at or after `i` in the window of `d` that is empty,
/// holds `d`, or is marked deleted.
pub open spec fn insertable_from(s: Seq<Option<Bucket>>, d: u64, i: int) -> Option<int>
    decreases probe_end(s.len(), d) - i,
{
    if i < 0 || i >= probe_end(s.len(), d) {
        None
    } else if s[i] is None || s[i]->Some_0.hashed_key == d || s[i]->Some_0.deleted {
        Some(i)
    } else {
        insertable_from(s, d, i + 1)
    }
}

/// The slot an entry for `d` is written to, if its window has one.
pub open spec fn insertable(s: Seq<Option<Bucket>>, d: u64) -> Option<int> {
    insertable_from(s, d, slot_of(d, s.len()))
}

/// Every live entry lies in its window, and no slot of the window before it
/// is empty.
pub open spec fn settled(s: Seq<Option<Bucket>>) -> bool {
    forall|p: int|
        #![trigger s[p]]
        0 <= p < s.len() && s[p] is Some && !s[p]->Some_0.deleted ==> {
            let d = s[p]->Some_0.hashed_key;
            &&& slot_of(d, s.len()) <= p < probe_end(s.len(), d)
            &&& forall|q: int| slot_of(d, s.len()) <= q < p ==> s[q] is Some
        }
}

/// No slot is marked deleted and no digest occupies two slots.
pub open spec fn compact(s: Seq<Option<Bucket>>) -> bool {
    &&& forall|p: int| 0 <= p < s.len() && s[p] is Some ==> !s[p]->Some_0.deleted
    &&& forall|p: int, q: int|
        0 <= p < s.len() && 0 <= q < s.len() && s[p] is Some && s[q] is Some
            && s[p]->Some_0.hashed_key == s[q]->Some_0.hashed_key ==> p == q
}

/// The value of the last occupied slot for `x` before `k`, deleted or not.
pub open spec fn carried_upto(s: Seq<Option<Bucket>>, x: u64, k: int) -> Option<i32>
    decreases k,
{
    if k <= 0 {
        None
    } else if s[k - 1] is Some && s[k - 1]->Some_0.hashed_key == x {
        Some(s[k - 1]->Some_0.value)
    } else {
        carried_upto(s, x, k - 1)
    }
}

/// The value that a rebuild keeps for `x`: that of its last occupied slot.
pub open spec fn carried(s: Seq<Option<Bucket>>, x: u64) -> Option<i32> {
    carried_upto(s, x, s.len() as int)
}

/// The entry as a rebuild writes it: live again.
pub open spec fn revived(b: Bucket) -> Bucket {
    Bucket { key: b.key, hashed_key: b.hashed_key, value: b.value, deleted: false }
}

/// An array of `n` empty slots into which the first `k` slots of `s` were
/// written in order, each occupied one at its insertable slot; `None` once
/// one of them finds no such slot.
pub open spec fn rebuild_upto(s: Seq<Option<Bucket>>, n: nat, k: int) -> Option<
    Seq<Option<Bucket>>,
>
    decreases k,
{
    if k <= 0 {
        Some(Seq::new(n, |i: int| None))
    } else {
        match rebuild_upto(s, n, k - 1) {
            None => None,
            Some(t) => if s[k - 1] is Some {
                let b = s[k - 1]->Some_0;
                match insertable(t, b.hashed_key) {
                    None => None,
                    Some(j) => Some(t.update(j, Some(revived(b)))),
                }
            } else {
                Some(t)
            },
        }
    }
}

/// All occupied slots of `s`, deleted ones too, rebuilt into `n` slots.
pub open spec fn rebuilt(s: Seq<Option<Bucket>>, n: nat) -> Option<Seq<Option<Bucket>>> {
    rebuild_upto(s, n, s.len() as int)
}

proof fn lemma_insertable(s: Seq<Option<Bucket>>, d: u64, i: int)
    requires
        0 <= i,
    ensures
        insertable_from(s, d, i) matches Some(j) ==> {
            &&& i <= j < probe_end(s.len(), d)
            &&& forall|q: int|
                i <= q < j ==> s[q] is Some && s[q]->Some_0.hashed_key != d
                    && !s[q]->Some_0.deleted
            &&& s[j] is None || s[j]->Some_0.hashed_key == d || s[j]->Some_0.deleted
        },
        insertable_from(s, d, i) is None ==> forall|q: int|
            i <= q < probe_end(s.len(), d) ==> s[q] is Some && s[q]->Some_0.hashed_key != d
                && !s[q]->Some_0.deleted,
    decreases probe_end(s.len(), d) - i,
{
    if i < probe_end(s.len(), d) {
        lemma_insertable(s, d, i + 1);
    }
}

proof fn lemma_first_live_none(s: Seq<Option<Bucket>>, x: u64, i: int)
    requires
        0 <= i,
        forall|q: int| i <= q < probe_end(s.len(), x) ==> !live_at(s, x, q),
    ensures
        first_live_from(s, x, i) is None,
    decreases probe_end(s.len(), x) - i,
{
    if i < probe_end(s.len(), x) {
        lemma_first_live_none(s, x, i + 1);
    }
}

proof fn lemma_first_live_at(s: Seq<Option<Bucket>>, x: u64, i: int, p: int)
    requires
        0 <= i <= p < probe_end(s.len(), x),
        live_at(s, x, p),
        forall|q: int| i <= q < p ==> !live_at(s, x, q),
    ensures
        first_live_from(s, x, i) == Some(s[p]->Some_0.value),
    decreases p - i,
{
    if i < p {
        lemma_first_live_at(s, x, i + 1, p);
    }
}

proof fn lemma_first_live_frame(s: Seq<Option<Bucket>>, t: Seq<Option<Bucket>>, x: u64, i: int)
    requires
        0 <= i,
        s.len() == t.len(),
        forall|q: int|
            i <= q < probe_end(s.len(), x) ==> live_at(s, x, q) == live_at(t, x, q) && (live_at(
                s,
                x,
                q,
            ) ==> s[q]->Some_0.value == t[q]->Some_0.value),
    ensures
        first_live_from(s, x, i) == first_live_from(t, x, i),
    decreases probe_end(s.len(), x) - i,
{
    if i < probe_end(s.len(), x) {
        lemma_first_live_frame(s, t, x, i + 1);
    }
}

/// In a settled array the scan for `x` may stop at an empty slot of its window.
proof fn lemma_stop_at_empty(s: Seq<Option<Bucket>>, x: u64, i: int)
    requires
        settled(s),
        0 <= slot_of(x, s.len()) <= i < probe_end(s.len(), x),
        s[i] is None,
    ensures
        first_live_from(s, x, i) is None,
{
    assert forall|q: int| i <= q < probe_end(s.len(), x) implies !live_at(s, x, q) by {
        if live_at(s, x, q) {
            assert(s[q] is Some);
        }
    }
    lemma_first_live_none(s, x, i);
}

/// Writing a live entry for `d` at its insertable slot keeps the array
/// settled and maps `d`, and only `d`, to the new value.
proof fn lemma_write(s: Seq<Option<Bucket>>, b: Bucket)
    requires
        s.len() > 0,
        settled(s),
        insertable(s, b.hashed_key) is Some,
        !b.deleted,
    ensures
        ({
            let t = s.update(insertable(s, b.hashed_key)->Some_0, Some(b));
            &&& settled(t)
            &&& forall|x: u64|
                first_live(t, x) == if x == b.hashed_key {
                    Some(b.value)
                } else {
                    first_live(s, x)
                }
        }),
{
    let d = b.hashed_key;
    let base = slot_of(d, s.len());
    let j = insertable(s, d)->Some_0;
    let t = s.update(j, Some(b));
    lemma_insertable(s, d, base);
    assert forall|x: u64|
        first_live(t, x) == if x == d {
            Some(b.value)
        } else {
            first_live(s, x)
        } by {
        if x == d {
            assert forall|q: int| base <= q < j implies !live_at(t, x, q) by {
                assert(t[q] == s[q]);
            }
            lemma_first_live_at(t, x, base, j);
        } else {
            lemma_first_live_frame(s, t, x, slot_of(x, s.len()));
        }
    }
    assert forall|p: int|
        #![trigger t[p]]
        0 <= p < t.len() && t[p] is Some && !t[p]->Some_0.deleted implies {
        let e = t[p]->Some_0.hashed_key;
        &&& slot_of(e, t.len()) <= p < probe_end(t.len(), e)
        &&& forall|q: int| slot_of(e, t.len()) <= q < p ==> t[q] is Some
    } by {
        if p != j {
            assert(s[p] == t[p]);
            let e = t[p]->Some_0.hashed_key;
            assert forall|q: int| slot_of(e, t.len()) <= q < p implies t[q] is Some by {
                assert(s[q] is Some);
            }
        }
    }
}

proof fn lemma_carried_frame(s: Seq<Option<Bucket>>, t: Seq<Option<Bucket>>, x: u64, k: int)
    requires
        0 <= k <= s.len(),
        k <= t.len(),
        forall|q: int|
            0 <= q < k ==> (s[q] is Some && s[q]->Some_0.hashed_key == x) == (t[q] is Some
                && t[q]->Some_0.hashed_key == x),
        forall|q: int|
            0 <= q < k && s[q] is Some && s[q]->Some_0.hashed_key == x ==> s[q]->Some_0.value
                == t[q]->Some_0.value,
    ensures
        carried_upto(s, x, k) == carried_upto(t, x, k),
    decreases k,
{
    if k > 0 {
        lemma_carried_frame(s, t, x, k - 1);
    }
}

proof fn lemma_carried_only(s: Seq<Option<Bucket>>, x: u64, k: int, p: int)
    requires
        0 <= p < k <= s.len(),
        s[p] is Some && s[p]->Some_0.hashed_key == x,
        forall|q: int| 0 <= q < k && q != p ==> !(s[q] is Some && s[q]->Some_0.hashed_key == x),
    ensures
        carried_upto(s, x, k) == Some(s[p]->Some_0.value),
    decreases k,
{
    if k - 1 != p {
        lemma_carried_only(s, x, k - 1, p);
    }
}

proof fn lemma_carried_none(s: Seq<Option<Bucket>>, x: u64, k: int)
    requires
        0 <= k <= s.len(),
        forall|q: int| 0 <= q < k ==> !(s[q] is Some && s[q]->Some_0.hashed_key == x),
    ensures
        carried_upto(s, x, k) is None,
    decreases k,
{
    if k > 0 {
        lemma_carried_none(s, x, k - 1);
    }
}

/// What holds of an array rebuilt from the first `k` slots of `s`.
pub open spec fn rebuild_holds(s: Seq<Option<Bucket>>, n: nat, k: int, t: Seq<Option<Bucket>>) -> bool {
    &&& t.len() == n
    &&& settled(t)
    &&& compact(t)
    &&& forall|x: u64| #[trigger] first_live(t, x) == carried_upto(s, x, k)
    &&& forall|x: u64| #[trigger] carried(t, x) == carried_upto(s, x, k)
}

proof fn lemma_rebuild_upto(s: Seq<Option<Bucket>>, n: nat, k: int)
    requires
        n > 0,
        0 <= k <= s.len(),
        rebuild_upto(s, n, k) is Some,
    ensures
        rebuild_holds(s, n, k, rebuild_upto(s, n, k)->Some_0),
    decreases k,
{
    let t2 = rebuild_upto(s, n, k)->Some_0;
    if k == 0 {
        assert forall|x: u64| #[trigger] first_live(t2, x) == carried_upto(s, x, k) by {
            lemma_first_live_none(t2, x, slot_of(x, n));
        }
        assert forall|x: u64| #[trigger] carried(t2, x) == carried_upto(s, x, k) by {
            lemma_carried_none(t2, x, n as int);
        }
    } else {
        lemma_rebuild_upto(s, n, k - 1);
        let t = rebuild_upto(s, n, k - 1)->Some_0;
        if s[k - 1] is Some {
            let b = s[k - 1]->Some_0;
            let d = b.hashed_key;
            let rb = revived(b);
            let j = insertable(t, d)->Some_0;
            assert(t2 == t.update(j, Some(rb)));
            lemma_write(t, rb);
            lemma_insertable(t, d, slot_of(d, n));
            assert forall|q: int| 0 <= q < n && q != j implies !(t[q] is Some
                && t[q]->Some_0.hashed_key == d) by {
                if t[q] is Some && t[q]->Some_0.hashed_key == d {
                    if !(t[j] is Some) {
                        assert(t[q] is Some && !t[q]->Some_0.deleted);
                    }
                }
            }
            assert forall|x: u64| #[trigger] first_live(t2, x) == carried_upto(s, x, k) by {
                assert(first_live(t, x) == carried_upto(s, x, k - 1));
            }
            assert forall|x: u64| #[trigger] carried(t2, x) == carried_upto(s, x, k) by {
                if x == d {
                    lemma_carried_only(t2, x, n as int, j);
                } else {
                    lemma_carried_frame(t, t2, x, n as int);
                    assert(carried(t, x) == carried_upto(s, x, k - 1));
                }
            }
        } else {
            assert(t2 == t);
            assert forall|x: u64| #[trigger] first_live(t2, x) == carried_upto(s, x, k) by {
                assert(first_live(t, x) == carried_upto(s, x, k - 1));
            }
            assert forall|x: u64| #[trigger] carried(t2, x) == carried_upto(s, x, k) by {
                assert(carried(t, x) == carried_upto(s, x, k - 1));
            }
        }
    }
}

proof fn lemma_rebuild_none_stays(s: Seq<Option<Bucket>>, n: nat, k: int, m: int)
    requires
        0 <= k <= m,
        rebuild_upto(s, n, k) is None,
    ensures
        rebuild_upto(s, n, m) is None,
    decreases m - k,
{
    if k < m {
        lemma_rebuild_none_stays(s, n, k + 1, m);
    }
}

/// What a delete of `d` that scanned its window up to `i` leaves: the same
/// slots occupied by the same digests and values, with those of `d` before
/// `i` marked deleted.
pub open spec fn marked_upto(s0: Seq<Option<Bucket>>, s: Seq<Option<Bucket>>, d: u64, i: int) -> bool {
    &&& s.len() == s0.len()
    &&& forall|p: int|
        #![trigger s[p]]
        0 <= p < s.len() ==> {
            &&& (s[p] is Some) == (s0[p] is Some)
            &&& s[p] is Some ==> {
                &&& s[p]->Some_0.key == s0[p]->Some_0.key
                &&& s[p]->Some_0.hashed_key == s0[p]->Some_0.hashed_key
                &&& s[p]->Some_0.value == s0[p]->Some_0.value
                &&& s[p]->Some_0.deleted == (s0[p]->Some_0.deleted || (slot_of(d, s.len()) <= p
                    < i && s0[p]->Some_0.hashed_key == d))
            }
        }
}

/// The first empty slot at or after `i` in the window of `d`, or the end of
/// the window where it has none.
pub open spec fn scan_stop_from(s: Seq<Option<Bucket>>, d: u64, i: int) -> int
    decreases probe_end(s.len(), d) - i,
{
    if i >= probe_end(s.len(), d) {
        probe_end(s.len(), d)
    } else if s[i] is None {
        i
    } else {
        scan_stop_from(s, d, i + 1)
    }
}

/// Where a delete of `d` stops scanning: the first empty slot of the window
/// of `d`, or its end.
pub open spec fn scan_stop(s: Seq<Option<Bucket>>, d: u64) -> int {
    scan_stop_from(s, d, slot_of(d, s.len()))
}

/// Marking slots deleted keeps room for every digest that had room.
proof fn lemma_marking_keeps_room(s0: Seq<Option<Bucket>>, s: Seq<Option<Bucket>>, d: u64, j: int, x: u64, i: int)
    requires
        0 <= i,
        marked_upto(s0, s, d, j),
        insertable_from(s0, x, i) is Some,
    ensures
        insertable_from(s, x, i) is Some,
    decreases probe_end(s0.len(), x) - i,
{
    if i < probe_end(s0.len(), x) {
        assert((s[i] is Some) == (s0[i] is Some));
        if !(s0[i] is None || s0[i]->Some_0.hashed_key == x || s0[i]->Some_0.deleted) {
            lemma_marking_keeps_room(s0, s, d, j, x, i + 1);
        }
    }
}

/// A delete that stopped at `i`, on an empty slot or at the end of the
/// window, leaves no live entry for `d` and changes nothing else.
proof fn lemma_after_delete(s0: Seq<Option<Bucket>>, s: Seq<Option<Bucket>>, d: u64, i: int)
    requires
        s0.len() > 0,
        settled(s0),
        marked_upto(s0, s, d, i),
        slot_of(d, s0.len()) <= i <= probe_end(s0.len(), d),
        i == probe_end(s0.len(), d) || s0[i] is None,
    ensures
        settled(s),
        forall|x: u64|
            first_live(s, x) == if x == d {
                None
            } else {
                first_live(s0, x)
            },
        forall|x: u64| carried(s, x) == carried(s0, x),
{
    assert forall|p: int|
        #![trigger s[p]]
        0 <= p < s.len() && s[p] is Some && !s[p]->Some_0.deleted implies {
        let e = s[p]->Some_0.hashed_key;
        &&& slot_of(e, s.len()) <= p < probe_end(s.len(), e)
        &&& forall|q: int| slot_of(e, s.len()) <= q < p ==> s[q] is Some
    } by {
        assert(s0[p] is Some);
        let e = s[p]->Some_0.hashed_key;
        assert forall|q: int| slot_of(e, s.len()) <= q < p implies s[q] is Some by {
            assert(s0[q] is Some);
        }
    }
    assert forall|x: u64|
        first_live(s, x) == if x == d {
            None
        } else {
            first_live(s0, x)
        } by {
        if x == d {
            assert forall|q: int| slot_of(d, s.len()) <= q < probe_end(s.len(), d) implies !live_at(
                s,
                x,
                q,
            ) by {
                if live_at(s, x, q) {
                    assert(s0[q] is Some);
                    assert(q >= i);
                    assert(s0[i] is Some);
                }
            }
            lemma_first_live_none(s, x, slot_of(d, s.len()));
        } else {
            assert forall|q: int| slot_of(x, s.len()) <= q < probe_end(s.len(), x) implies live_at(
                s,
                x,
                q,
            ) == live_at(s0, x, q) && (live_at(s, x, q) ==> s[q]->Some_0.value
                == s0[q]->Some_0.value) by {
                assert(s[q] is Some == s0[q] is Some);
            }
            lemma_first_live_frame(s, s0, x, slot_of(x, s.len()));
        }
    }
    assert forall|x: u64| carried(s, x) == carried(s0, x) by {
        assert forall|q: int| 0 <= q < s.len() implies (s[q] is Some && s[q]->Some_0.hashed_key
            == x) == (s0[q] is Some && s0[q]->Some_0.hashed_key == x) by {
            assert(s[q] is Some == s0[q] is Some);
        }
        assert forall|q: int| 0 <= q < s.len() && s[q] is Some && s[q]->Some_0.hashed_key
            == x implies s[q]->Some_0.value == s0[q]->Some_0.value by {
            assert(s[q] is Some == s0[q] is Some);
        }
        lemma_carried_frame(s, s0, x, s.len() as int);
    }
}

proof fn lemma_carried_some(s: Seq<Option<Bucket>>, x: u64, k: int)
    requires
        0 <= k <= s.len(),
        carried_upto(s, x, k) is Some,
    ensures
        exists|q: int| 0 <= q < k && s[q] is Some && s[q]->Some_0.hashed_key == x,
    decreases k,
{
    if !(s[k - 1] is Some && s[k - 1]->Some_0.hashed_key == x) {
        lemma_carried_some(s, x, k - 1);
    }
}

proof fn lemma_carried_has(s: Seq<Option<Bucket>>, x: u64, k: int, q: int)
    requires
        0 <= q < k <= s.len(),
        s[q] is Some && s[q]->Some_0.hashed_key == x,
    ensures
        carried_upto(s, x, k) is Some,
    decreases k,
{
    if !(s[k - 1] is Some && s[k - 1]->Some_0.hashed_key == x) {
        lemma_carried_has(s, x, k - 1, q);
    }
}

/// Writing an entry for `d` at its insertable slot adds no other digest to
/// those that occupy a slot, and keeps a compact array compact.
proof fn lemma_write_occupied(s: Seq<Option<Bucket>>, b: Bucket)
    requires
        s.len() > 0,
        settled(s),
        insertable(s, b.hashed_key) is Some,
        !b.deleted,
    ensures
        ({
            let t = s.update(insertable(s, b.hashed_key)->Some_0, Some(b));
            &&& forall|x: u64|
                carried(t, x) is Some ==> x == b.hashed_key || carried(s, x) is Some
            &&& compact(s) ==> compact(t)
        }),
{
    let d = b.hashed_key;
    let n = s.len();
    let j = insertable(s, d)->Some_0;
    lemma_insertable(s, d, slot_of(d, n));
    let t = s.update(j, Some(b));
    assert forall|x: u64| carried(t, x) is Some implies x == d || carried(s, x) is Some by {
        if x != d {
            lemma_carried_some(t, x, n as int);
            let q = choose|q: int| 0 <= q < n && t[q] is Some && t[q]->Some_0.hashed_key == x;
            assert(s[q] == t[q]);
            lemma_carried_has(s, x, n as int, q);
        }
    }
    if compact(s) {
        assert forall|q: int| 0 <= q < n && q != j implies !(s[q] is Some && s[q]->Some_0.hashed_key
            == d) by {
            if s[q] is Some && s[q]->Some_0.hashed_key == d {
                if !(s[j] is Some) {
                    assert(s[q] is Some && !s[q]->Some_0.deleted);
                }
            }
        }
        assert(compact(t));
    }
}

/// In a settled, compact array a rebuild keeps exactly what lookups see.
proof fn lemma_compact_carried(s: Seq<Option<Bucket>>)
    requires
        s.len() > 0,
        settled(s),
        compact(s),
    ensures
        forall|x: u64| carried(s, x) == first_live(s, x),
{
    assert forall|x: u64| carried(s, x) == first_live(s, x) by {
        let n = s.len();
        if exists|q: int| 0 <= q < n && s[q] is Some && s[q]->Some_0.hashed_key == x {
            let q = choose|q: int| 0 <= q < n && s[q] is Some && s[q]->Some_0.hashed_key == x;
            lemma_carried_only(s, x, n as int, q);
            assert(s[q] is Some && !s[q]->Some_0.deleted);
            lemma_first_live_at(s, x, slot_of(x, n), q);
        } else {
            lemma_carried_none(s, x, n as int);
            lemma_first_live_none(s, x, slot_of(x, n));
        }
    }
}

/// Relies on `rand::random::<usize>`: a value drawn from the thread-local
/// generator. Nothing is promised of it.
#[verifier::external_body]
fn draw() -> usize {
    rand::random::<usize>()
}

/// The candidate length that follows `current` when the table has `len`
/// slots and `drawn` was drawn: `current` plus an offset in `1..=len`, or
/// `None` where that exceeds `usize::MAX`.
pub fn next_candidate(len: usize, current: usize, drawn: usize) -> (r: Option<usize>)
    requires
        len > 0,
    ensures
        r == if current + 1 + drawn % len <= usize::MAX {
            Some((current + 1 + drawn % len) as usize)
        } else {
            None::<usize>
        },
{
    let offset = 1 + drawn % len;
    if offset > usize::MAX - current {
        None
    } else {
        Some(current + offset)
    }
}

/// One past the last slot of the window that starts at `idx`.
fn window_end(idx: usize, len: usize) -> (r: usize)
    requires
        idx < len,
    ensures
        r == if idx + MAX_PROBE < len {
            idx + MAX_PROBE
        } else {
            len as int
        },
{
    if len - idx > MAX_PROBE {
        idx + MAX_PROBE
    } else {
        len
    }
}

/// A table of slots, at least `INITIAL_SIZE` of them, that grows only by
/// being rebuilt.
#[derive(Debug)]
pub struct HashTable {
    buckets: Vec<Option<Bucket>>,
}

impl HashTable {
    /// At least `INITIAL_SIZE` slots, and every live entry settled in its
    /// window.
    pub closed spec fn wf(&self) -> bool {
        &&& INITIAL_SIZE <= self.buckets@.len() <= usize::MAX
        &&& settled(self.buckets@)
    }

    /// The number of slots.
    pub closed spec fn spec_len(&self) -> nat {
        self.buckets@.len()
    }

    /// The window of `d` has a slot that an entry for `d` can be written to.
    pub closed spec fn fits(&self, d: u64) -> bool {
        insertable(self.buckets@, d) is Some
    }

    /// The slots, in order.
    pub closed spec fn slots(&self) -> Seq<Option<Bucket>> {
        self.buckets@
    }

    /// No longer table fits in `usize`: a growth step of up to `len` slots
    /// already overflows, or the rebuild fails at some length within `len`
    /// of `usize::MAX`, where a further step would overflow.
    pub closed spec fn cannot_grow(&self) -> bool {
        ||| 2 * self.buckets@.len() > usize::MAX
        ||| exists|n: int|
            usize::MAX - self.buckets@.len() < n <= usize::MAX && #[trigger] rebuilt(
                self.buckets@,
                n as nat,
            ) is None
    }

    /// No slot is marked deleted and no digest occupies two slots.
    pub closed spec fn tidy(&self) -> bool {
        compact(self.buckets@)
    }

    /// `self` is a rebuild of `prev` into a longer array: lookups find what
    /// `prev` kept, and a further rebuild would keep the same.
    pub closed spec fn regrown_from(&self, prev: HashTable) -> bool {
        &&& self.spec_len() > prev.spec_len()
        &&& rebuild_holds(prev.buckets@, self.spec_len(), prev.spec_len() as int, self.buckets@)
    }

    /// The mapping that a rebuild of the table leaves: each digest that
    /// occupies a slot, deleted or not, with the value of its last slot.
    pub closed spec fn kept(&self) -> Map<u64, i32> {
        Map::new(
            |x: u64| carried(self.buckets@, x) is Some,
            |x: u64| carried(self.buckets@, x)->Some_0,
        )
    }
}

impl View for HashTable {
    type V = Map<u64, i32>;

    /// The mapping from digests to values that lookups see.
    closed spec fn view(&self) -> Map<u64, i32> {
        Map::new(
            |x: u64| first_live(self.buckets@, x) is Some,
            |x: u64| first_live(self.buckets@, x)->Some_0,
        )
    }
}

/// `t1` is what an upsert of `v` under digest `d` leaves in `t0` when it
/// writes the entry: in place where the window of `d` has room, else after
/// growing the table, which keeps `t0.kept()`.
pub open spec fn upsert_wrote(t0: HashTable, d: u64, v: i32, t1: HashTable) -> bool {
    ||| t0.fits(d) && t1@ == t0@.insert(d, v) && t1.spec_len() == t0.spec_len()
    ||| !t0.fits(d) && t1.spec_len() > t0.spec_len() && t1@ == t0.kept().insert(d, v)
}

impl HashTable {
    /// An empty table of `INITIAL_SIZE` empty slots.
    pub fn new() -> (r: Self)
        ensures
            r.wf(),
            r.spec_len() == INITIAL_SIZE,
            r@ == Map::<u64, i32>::empty(),
            r.kept() == Map::<u64, i32>::empty(),
            r.tidy(),
            forall|d: u64| r.fits(d),
    {
        let mut buckets: Vec<Option<Bucket>> = Vec::new();
        let mut i: usize = 0;
        while i < INITIAL_SIZE
            invariant
                i <= INITIAL_SIZE,
                buckets@.len() == i,
                forall|j: int| 0 <= j < i ==> buckets@[j] is None,
            decreases INITIAL_SIZE - i,
        {
            buckets.push(None);
            i += 1;
        }
        let r = HashTable { buckets };
        proof {
            let s = r.buckets@;
            assert forall|x: u64| first_live(s, x) is None by {
                lemma_first_live_none(s, x, slot_of(x, s.len()));
            }
            assert forall|x: u64| carried(s, x) is None by {
                lemma_carried_none(s, x, s.len() as int);
            }
        }
        assert(r@ =~= Map::<u64, i32>::empty());
        assert forall|d: u64| r.fits(d) by {
            assert(insertable_from(r.buckets@, d, slot_of(d, INITIAL_SIZE as nat)) is Some);
        }
        assert(r.kept() =~= Map::<u64, i32>::empty());
        r
    }

    /// The number of slots.
    pub fn len(&self) -> (r: usize)
        ensures
            r == self.spec_len(),
    {
        self.buckets.len()
    }

    /// The first slot of the window of `hashed_key` in `buckets` that is
    /// empty, holds that digest, or is marked deleted.
    fn compute_insertable_index(&self, hashed_key: u64, buckets: &Vec<Option<Bucket>>) -> (r:
        Option<usize>)
        requires
            buckets@.len() > 0,
        ensures
            r matches Some(i) ==> insertable(buckets@, hashed_key) == Some(i as int),
            r is None ==> insertable(buckets@, hashed_key) is None,
    {
        let idx = compute_bucket_index(hashed_key, buckets.len());
        let end = window_end(idx, buckets.len());
        let mut i: usize = idx;
        while i < end
            invariant
                idx <= i <= end,
                end == probe_end(buckets@.len(), hashed_key),
                idx == slot_of(hashed_key, buckets@.len()),
                insertable(buckets@, hashed_key) == insertable_from(buckets@, hashed_key, i as int),
            decreases end - i,
        {
            match &buckets[i] {
                None => {
                    return Some(i);
                },
                Some(bucket) => {
                    if bucket.hashed_key == hashed_key || bucket.deleted {
                        return Some(i);
                    }
                },
            }
            i += 1;
        }
        None
    }

    /// The value stored under the digest of `key`.
    pub fn get(&self, key: &str) -> (r: Option<i32>)
        requires
            self.wf(),
        ensures
            r == map_get(self@, digest_of(key@)),
    {
        let hashed_key = compute_hash(key);
        let idx = compute_bucket_index(hashed_key, self.len());
        let end = window_end(idx, self.len());
        let ghost s = self.buckets@;
        assert(map_get(self@, hashed_key) == first_live(s, hashed_key));
        let mut i: usize = idx;
        while i < end
            invariant
                s == self.buckets@,
                map_get(self@, digest_of(key@)) == first_live(s, hashed_key),
                hashed_key == digest_of(key@),
                settled(s),
                idx <= i <= end,
                end == probe_end(s.len(), hashed_key),
                idx == slot_of(hashed_key, s.len()),
                first_live(s, hashed_key) == first_live_from(s, hashed_key, i as int),
            decreases end - i,
        {
            match &self.buckets[i] {
                None => {
                    proof {
                        lemma_stop_at_empty(s, hashed_key, i as int);
                    }
                    return None;
                },
                Some(bucket) => {
                    if bucket.hashed_key == hashed_key && !bucket.deleted {
                        return Some(bucket.value);
                    }
                },
            }
            i += 1;
        }
        None
    }
    proof fn lemma_delete_room(&self, t0: HashTable, d: u64, i: int)
        requires
            t0.wf(),
            marked_upto(t0.buckets@, self.buckets@, d, i),
        ensures
            forall|x: u64| t0.fits(x) ==> #[trigger] self.fits(x),
            t0@.contains_key(d) ==> self.fits(d),
    {
        assert forall|x: u64| t0.fits(x) implies #[trigger] self.fits(x) by {
            lemma_marking_keeps_room(
                t0.buckets@,
                self.buckets@,
                d,
                i,
                x,
                slot_of(x, t0.buckets@.len()),
            );
        }
        if t0@.contains_key(d) {
            lemma_held_fits(t0, d);
        }
    }

    /// Marks deleted every slot of the window of the digest of `key` that
    /// holds that digest, up to the first empty slot. The slots stay
    /// occupied, with their values.
    pub fn delete(&mut self, key: &str)
        requires
            old(self).wf(),
        ensures
            final(self).wf(),
            final(self)@ == old(self)@.remove(digest_of(key@)),
            final(self).spec_len() == old(self).spec_len(),
            final(self).kept() == old(self).kept(),
            marked_upto(
                old(self).slots(),
                final(self).slots(),
                digest_of(key@),
                scan_stop(old(self).slots(), digest_of(key@)),
            ),
            forall|x: u64| old(self).fits(x) ==> #[trigger] final(self).fits(x),
            old(self)@.contains_key(digest_of(key@)) ==> final(self).fits(digest_of(key@)),
    {
        let hashed_key = compute_hash(key);
        let idx = compute_bucket_index(hashed_key, self.len());
        let end = window_end(idx, self.len());
        let ghost t0 = *self;
        let ghost s0 = self.buckets@;
        let mut i: usize = idx;
        while i < end
            invariant
                t0 == *old(self),
                t0.buckets@ == s0,
                settled(s0),
                t0.wf(),
                hashed_key == digest_of(key@),
                idx <= i <= end,
                end == probe_end(s0.len(), hashed_key),
                idx == slot_of(hashed_key, s0.len()),
                marked_upto(s0, self.buckets@, hashed_key, i as int),
                scan_stop(s0, hashed_key) == scan_stop_from(s0, hashed_key, i as int),
            decreases end - i,
        {
            let ghost s = self.buckets@;
            match &self.buckets[i] {
                None => {
                    proof {
                        assert(s[i as int] is None);
                        lemma_after_delete(s0, s, hashed_key, i as int);
                        assert(self@ =~= t0@.remove(hashed_key));
                        assert(self.kept() =~= t0.kept());
                        self.lemma_delete_room(t0, hashed_key, i as int);
                    }
                    return;
                },
                Some(bucket) => {
                    if bucket.hashed_key == hashed_key {
                        let mut taken: Option<Bucket> = None;
                        self.buckets.set_and_swap(i, &mut taken);
                        match taken {
                            Some(mut b) => {
                                b.deleted = true;
                                self.buckets.set(i, Some(b));
                            },
                            None => {},
                        }
                    }
                },
            }
            proof {
                assert forall|p: int|
                    #![trigger self.buckets@[p]]
                    0 <= p < self.buckets@.len() && p != i implies self.buckets@[p] == s[p] by {}
            }
            i += 1;
        }
        proof {
            lemma_after_delete(s0, self.buckets@, hashed_key, i as int);
            assert(self@ =~= t0@.remove(hashed_key));
            assert(self.kept() =~= t0.kept());
            self.lemma_delete_room(t0, hashed_key, i as int);
        }
    }

    /// The table's entries, deleted ones too, rebuilt live into `next_len`
    /// empty slots; `None` when one of them finds no slot in its window.
    fn make_rehashed_buckets(&self, next_len: usize) -> (r: Option<Vec<Option<Bucket>>>)
        requires
            next_len > 0,
        ensures
            r matches Some(v) ==> rebuilt(self.buckets@, next_len as nat) == Some(v@),
            r matches Some(v) ==> rebuild_holds(
                self.buckets@,
                next_len as nat,
                self.buckets@.len() as int,
                v@,
            ),
            r is None ==> rebuilt(self.buckets@, next_len as nat) is None,
    {
        let ghost s = self.buckets@;
        let ghost n = next_len as nat;
        let mut new_buckets: Vec<Option<Bucket>> = Vec::new();
        let mut k: usize = 0;
        while k < next_len
            invariant
                k <= next_len,
                new_buckets@.len() == k,
                forall|j: int| 0 <= j < k ==> new_buckets@[j] is None,
            decreases next_len - k,
        {
            new_buckets.push(None);
            k += 1;
        }
        assert(new_buckets@ =~= Seq::new(n, |i: int| None));
        let mut i: usize = 0;
        while i < self.buckets.len()
            invariant
                s == self.buckets@,
                n == next_len,
                n > 0,
                i <= s.len(),
                rebuild_upto(s, n, i as int) == Some(new_buckets@),
            decreases s.len() - i,
        {
            proof {
                lemma_rebuild_upto(s, n, i as int);
            }
            match &self.buckets[i] {
                None => {},
                Some(bucket) => {
                    match self.compute_insertable_index(bucket.hashed_key, &new_buckets) {
                        None => {
                            proof {
                                lemma_rebuild_none_stays(s, n, i as int + 1, s.len() as int);
                            }
                            return None;
                        },
                        Some(idx) => {
                            proof {
                                lemma_insertable(
                                    new_buckets@,
                                    bucket.hashed_key,
                                    slot_of(bucket.hashed_key, n),
                                );
                            }
                            let revived_bucket = Bucket {
                                key: bucket.key.clone(),
                                hashed_key: bucket.hashed_key,
                                value: bucket.value,
                                deleted: false,
                            };
                            new_buckets.set(idx, Some(revived_bucket));
                        },
                    }
                },
            }
            i += 1;
        }
        proof {
            lemma_rebuild_upto(s, n, s.len() as int);
        }
        Some(new_buckets)
    }

    /// Replaces the slots by a rebuild into a longer array. The first
    /// candidate length is `next_candidate(len, len, ..)`, each later one
    /// `next_candidate(len, previous, ..)` of a fresh draw; a candidate whose
    /// rebuild fails is dropped for the next. Returns false, with the table
    /// unchanged, only once no further candidate fits in `usize`.
    fn rehash(&mut self) -> (grown: bool)
        requires
            old(self).wf(),
        ensures
            final(self).wf(),
            grown ==> final(self).regrown_from(*old(self)),
            !grown ==> *final(self) == *old(self) && old(self).cannot_grow(),
    {
        let ghost s0 = *self;
        let len = self.len();
        let mut next_len: usize = match next_candidate(len, len, draw()) {
            None => {
                return false;
            },
            Some(n) => n,
        };
        loop
            invariant
                *self == s0,
                s0 == *old(self),
                s0.wf(),
                len == s0.spec_len(),
                next_len > len,
            decreases usize::MAX - next_len,
        {
            match self.make_rehashed_buckets(next_len) {
                Some(new_buckets) => {
                    self.buckets = new_buckets;
                    return true;
                },
                None => {
                    let drawn = draw();
                    match next_candidate(len, next_len, drawn) {
                        None => {
                            proof {
                                assert(drawn % len < len);
                                let n = next_len as int;
                                assert(rebuilt(s0.buckets@, n as nat) is None);
                                assert(usize::MAX - len < n <= usize::MAX);
                            }
                            return false;
                        },
                        Some(n) => {
                            next_len = n;
                        },
                    }
                },
            }
        }
    }

    /// Stores `value` under the digest of `key`, in the first slot of its
    /// window that is empty, holds that digest, or is marked deleted. Where
    /// the window has no such slot, the table is rebuilt longer first, as
    /// often as needed; a rebuild keeps for each digest the value of its last
    /// occupied slot, deleted or not (`kept`). The entry is always written,
    /// unless the table reaches a length where it cannot grow (`cannot_grow`).
    pub fn upsert(&mut self, key: String, value: i32)
        requires
            old(self).wf(),
        ensures
            final(self).wf(),
            old(self).fits(digest_of(key@)) ==> upsert_wrote(
                *old(self),
                digest_of(key@),
                value,
                *final(self),
            ),
            old(self).fits(digest_of(key@)) ==> final(self).slots() == old(self).slots().update(
                insertable(old(self).slots(), digest_of(key@))->Some_0,
                Some(Bucket { key: key, hashed_key: digest_of(key@), value: value, deleted: false }),
            ),
            upsert_wrote(*old(self), digest_of(key@), value, *final(self)) || (
            final(self).cannot_grow() && (final(self)@ == old(self)@ || final(self)@ == old(
                self,
            ).kept())),
            final(self).spec_len() >= old(self).spec_len(),
            old(self).tidy() ==> final(self).tidy(),
            forall|x: u64|
                #[trigger] final(self).kept().contains_key(x) ==> x == digest_of(key@) || old(
                    self,
                ).kept().contains_key(x),
    {
        let hashed_key = compute_hash(key.as_str());
        let ghost s0 = *self;
        loop
            invariant
                self.wf(),
                s0 == *old(self),
                s0.wf(),
                hashed_key == digest_of(key@),
                *self == s0 || (!s0.fits(hashed_key) && self.spec_len() > s0.spec_len() && self@
                    == s0.kept() && self.kept() == s0.kept()),
                s0.tidy() ==> self.tidy(),
            decreases usize::MAX - self.spec_len(),
        {
            match self.compute_insertable_index(hashed_key, &self.buckets) {
                None => {
                    let ghost u = *self;
                    if !self.rehash() {
                        proof {
                            assert(u.cannot_grow());
                        }
                        return;
                    }
                    proof {
                        assert forall|x: u64| carried(u.buckets@, x) == carried(s0.buckets@, x) by {
                            if u != s0 {
                                assert(u.kept().contains_key(x) == s0.kept().contains_key(x));
                                if u.kept().contains_key(x) {
                                    assert(u.kept()[x] == s0.kept()[x]);
                                }
                            }
                        }
                        assert(self@ =~= s0.kept());
                        assert(self.kept() =~= s0.kept());
                    }
                },
                Some(idx) => {
                    let ghost mid = *self;
                    let bucket = Bucket { key, hashed_key, value, deleted: false };
                    proof {
                        lemma_insertable(
                            mid.buckets@,
                            hashed_key,
                            slot_of(hashed_key, mid.buckets@.len()),
                        );
                        lemma_write(mid.buckets@, bucket);
                        lemma_write_occupied(mid.buckets@, bucket);
                    }
                    self.buckets.set(idx, Some(bucket));
                    proof {
                        assert(self@ =~= mid@.insert(hashed_key, value));
                        assert forall|x: u64| #[trigger]
                            self.kept().contains_key(x) implies x == hashed_key
                            || s0.kept().contains_key(x) by {
                            if x != hashed_key {
                                assert(mid.kept().contains_key(x));
                            }
                        }
                    }
                    return;
                },
            }
        }
    }
}

proof fn lemma_first_live_some(s: Seq<Option<Bucket>>, x: u64, i: int)
    requires
        0 <= i,
        first_live_from(s, x, i) is Some,
    ensures
        exists|p: int| i <= p < probe_end(s.len(), x) && live_at(s, x, p),
    decreases probe_end(s.len(), x) - i,
{
    if !live_at(s, x, i) {
        lemma_first_live_some(s, x, i + 1);
    }
}

proof fn lemma_first_live_exists(s: Seq<Option<Bucket>>, x: u64, i: int, p: int)
    requires
        0 <= i <= p < probe_end(s.len(), x),
        live_at(s, x, p),
    ensures
        first_live_from(s, x, i) is Some,
    decreases p - i,
{
    if i < p && !live_at(s, x, i) {
        lemma_first_live_exists(s, x, i + 1, p);
    }
}

proof fn lemma_scan_stop_bound(s: Seq<Option<Bucket>>, d: u64, i: int)
    requires
        i <= probe_end(s.len(), d),
    ensures
        scan_stop_from(s, d, i) <= probe_end(s.len(), d),
    decreases probe_end(s.len(), d) - i,
{
    if i < probe_end(s.len(), d) {
        lemma_scan_stop_bound(s, d, i + 1);
    }
}

/// A table that holds digest `d` has room for it in its window, so an
/// upsert of a key it holds writes in place.
pub proof fn lemma_held_fits(t: HashTable, d: u64)
    requires
        t.wf(),
        t@.contains_key(d),
    ensures
        t.fits(d),
{
    let s = t.buckets@;
    lemma_first_live_some(s, d, slot_of(d, s.len()));
    lemma_insertable(s, d, slot_of(d, s.len()));
}

/// In a tidy table a rebuild keeps exactly what lookups see.
pub proof fn law_tidy_rebuild_keeps_view(t: HashTable)
    requires
        t.wf(),
        t.tidy(),
    ensures
        t.kept() == t@,
{
    lemma_compact_carried(t.buckets@);
    assert(t.kept() =~= t@);
}

/// Step `i` of a run: `ts[i + 1]` is what an upsert of `vs[i]` under
/// `ks[i]` into `ts[i]` leaves: the entry written, unless the table cannot
/// grow.
pub open spec fn upsert_step(ts: Seq<HashTable>, ks: Seq<Seq<char>>, vs: Seq<i32>, i: int) -> bool {
    &&& ts[i + 1].wf()
    &&& ts[i].tidy() ==> ts[i + 1].tidy()
    &&& upsert_wrote(ts[i], digest_of(ks[i]), vs[i], ts[i + 1]) || ts[i + 1].cannot_grow()
}

proof fn lemma_upserts_prefix(ts: Seq<HashTable>, ks: Seq<Seq<char>>, vs: Seq<i32>, k: int)
    requires
        ks.len() == vs.len(),
        ts.len() == ks.len() + 1,
        0 <= k <= ks.len(),
        ts[0].wf(),
        ts[0].tidy(),
        forall|i: int, j: int|
            0 <= i < ks.len() && 0 <= j < ks.len() && digest_of(ks[i]) == digest_of(ks[j])
                ==> vs[i] == vs[j],
        forall|i: int| 0 <= i < ks.len() ==> #[trigger] upsert_step(ts, ks, vs, i),
        forall|i: int| 0 < i <= ks.len() ==> !(#[trigger] ts[i].cannot_grow()),
    ensures
        ts[k].tidy(),
        forall|i: int| 0 <= i < k ==> map_get(ts[k]@, digest_of(ks[i])) == Some(vs[i]),
    decreases k,
{
    if k > 0 {
        lemma_upserts_prefix(ts, ks, vs, k - 1);
        let t = ts[k - 1];
        assert(upsert_step(ts, ks, vs, k - 1));
        assert(!ts[k].cannot_grow());
        if k - 1 > 0 {
            assert(upsert_step(ts, ks, vs, k - 2));
        }
        law_tidy_rebuild_keeps_view(t);
        assert(ts[k]@ == t@.insert(digest_of(ks[k - 1]), vs[k - 1]));
    }
}

/// After upserts of distinct keys into a tidy table (a new one is), one
/// after another, each key maps to the value it was given. Keys are told
/// apart by digest, so keys that share a digest must carry equal values;
/// and no table on the way may have reached the length where it cannot grow.
pub proof fn law_distinct_upserts(ts: Seq<HashTable>, ks: Seq<Seq<char>>, vs: Seq<i32>)
    requires
        ks.len() == vs.len(),
        ts.len() == ks.len() + 1,
        ts[0].wf(),
        ts[0].tidy(),
        forall|i: int, j: int| 0 <= i < j < ks.len() ==> ks[i] != ks[j],
        forall|i: int, j: int|
            0 <= i < ks.len() && 0 <= j < ks.len() && digest_of(ks[i]) == digest_of(ks[j])
                ==> vs[i] == vs[j],
        forall|i: int| 0 <= i < ks.len() ==> #[trigger] upsert_step(ts, ks, vs, i),
        forall|i: int| 0 < i <= ks.len() ==> !(#[trigger] ts[i].cannot_grow()),
    ensures
        forall|i: int|
            0 <= i < ks.len() ==> map_get(ts[ks.len() as int]@, digest_of(ks[i])) == Some(vs[i]),
{
    lemma_upserts_prefix(ts, ks, vs, ks.len() as int);
}

/// A second upsert of a key replaces its value in place and adds no entry,
/// unless the first left a table that cannot grow.
pub proof fn law_upsert_overwrites(
    t0: HashTable,
    t1: HashTable,
    t2: HashTable,
    k: Seq<char>,
    v1: i32,
    v2: i32,
)
    requires
        t1.wf(),
        upsert_wrote(t0, digest_of(k), v1, t1) || t1.cannot_grow(),
        !t1.cannot_grow(),
        t1.fits(digest_of(k)) ==> upsert_wrote(t1, digest_of(k), v2, t2),
    ensures
        map_get(t2@, digest_of(k)) == Some(v2),
        t2@.dom() == t1@.dom(),
        t2@.len() == t1@.len(),
        t2.spec_len() == t1.spec_len(),
{
    lemma_held_fits(t1, digest_of(k));
    assert(t2@.dom() =~= t1@.dom());
}

/// A deleted key is gone, and an upsert after the delete brings the key
/// back with the new value, in place: the delete left room for it.
pub proof fn law_delete_then_upsert(
    t0: HashTable,
    t1: HashTable,
    t2: HashTable,
    t3: HashTable,
    k: Seq<char>,
    v: i32,
    v2: i32,
)
    requires
        upsert_wrote(t0, digest_of(k), v, t1) || t1.cannot_grow(),
        !t1.cannot_grow(),
        t2@ == t1@.remove(digest_of(k)),
        t1@.contains_key(digest_of(k)) ==> t2.fits(digest_of(k)),
        t2.spec_len() == t1.spec_len(),
        t2.fits(digest_of(k)) ==> upsert_wrote(t2, digest_of(k), v2, t3),
    ensures
        map_get(t2@, digest_of(k)) is None,
        map_get(t3@, digest_of(k)) == Some(v2),
        t3.spec_len() == t1.spec_len(),
{
}

/// Deleting a key that the table does not hold changes no slot.
pub proof fn law_delete_missing(t0: HashTable, t1: HashTable, k: Seq<char>)
    requires
        t0.wf(),
        !t0@.contains_key(digest_of(k)),
        t1@ == t0@.remove(digest_of(k)),
        marked_upto(t0.slots(), t1.slots(), digest_of(k), scan_stop(t0.slots(), digest_of(k))),
    ensures
        t1@ == t0@,
        t1.slots() == t0.slots(),
{
    assert(t1@ =~= t0@);
    let s0 = t0.slots();
    let s1 = t1.slots();
    let d = digest_of(k);
    let base = slot_of(d, s0.len());
    lemma_scan_stop_bound(s0, d, base);
    assert forall|p: int| 0 <= p < s0.len() implies s1[p] == s0[p] by {
        if s1[p] is Some {
            if base <= p < scan_stop(s0, d) && s0[p]->Some_0.hashed_key == d && !s0[p]->Some_0.deleted {
                lemma_first_live_exists(s0, d, base, p);
            }
        }
    }
    assert(s1 =~= s0);
}

proof fn lemma_never_inserted_prefix(
    ts: Seq<HashTable>,
    ks: Seq<Seq<char>>,
    vs: Seq<Option<i32>>,
    k: Seq<char>,
    n: int,
)
    requires
        ks.len() == vs.len(),
        ts.len() == ks.len() + 1,
        0 <= n <= ks.len(),
        ts[0]@ == Map::<u64, i32>::empty(),
        ts[0].kept() == Map::<u64, i32>::empty(),
        forall|i: int|
            0 <= i < ks.len() && vs[i] is Some ==> {
                &&& upsert_wrote(ts[i], digest_of(ks[i]), vs[i]->Some_0, ts[i + 1]) || ts[i
                    + 1]@ == ts[i]@ || ts[i + 1]@ == ts[i].kept()
                &&& forall|x: u64|
                    #[trigger] ts[i + 1].kept().contains_key(x) ==> x == digest_of(ks[i])
                        || ts[i].kept().contains_key(x)
            },
        forall|i: int|
            0 <= i < ks.len() && vs[i] is None ==> {
                &&& ts[i + 1]@ == ts[i]@.remove(digest_of(ks[i]))
                &&& ts[i + 1].kept() == ts[i].kept()
            },
        forall|i: int| 0 <= i < ks.len() && vs[i] is Some ==> digest_of(ks[i]) != digest_of(k),
    ensures
        !ts[n]@.contains_key(digest_of(k)),
        !ts[n].kept().contains_key(digest_of(k)),
    decreases n,
{
    if n > 0 {
        lemma_never_inserted_prefix(ts, ks, vs, k, n - 1);
        if vs[n - 1] is Some {
            assert(!ts[n].kept().contains_key(digest_of(k)));
        } else {
            assert(ts[n]@ == ts[n - 1]@.remove(digest_of(ks[n - 1])));
        }
    }
}

/// Starting from a new table, through any upserts and deletes, a key that
/// was never upserted is not found, not even after the table grew. Keys are
/// told apart by digest, so no upserted key may share its digest.
pub proof fn law_never_inserted(
    ts: Seq<HashTable>,
    ks: Seq<Seq<char>>,
    vs: Seq<Option<i32>>,
    k: Seq<char>,
)
    requires
        ks.len() == vs.len(),
        ts.len() == ks.len() + 1,
        ts[0]@ == Map::<u64, i32>::empty(),
        ts[0].kept() == Map::<u64, i32>::empty(),
        forall|i: int|
            0 <= i < ks.len() && vs[i] is Some ==> {
                &&& upsert_wrote(ts[i], digest_of(ks[i]), vs[i]->Some_0, ts[i + 1]) || ts[i
                    + 1]@ == ts[i]@ || ts[i + 1]@ == ts[i].kept()
                &&& forall|x: u64|
                    #[trigger] ts[i + 1].kept().contains_key(x) ==> x == digest_of(ks[i])
                        || ts[i].kept().contains_key(x)
            },
        forall|i: int|
            0 <= i < ks.len() && vs[i] is None ==> {
                &&& ts[i + 1]@ == ts[i]@.remove(digest_of(ks[i]))
                &&& ts[i + 1].kept() == ts[i].kept()
            },
        forall|i: int| 0 <= i < ks.len() && vs[i] is Some ==> digest_of(ks[i]) != digest_of(k),
    ensures
        map_get(ts[ks.len() as int]@, digest_of(k)) is None,
{
    lemma_never_inserted_prefix(ts, ks, vs, k, ks.len() as int);
}

/// A successful rehash leaves a strictly longer table in which every digest
/// that was live before maps to the same value, provided that for each live
/// digest its last occupied slot holds the live value (as in any tidy table).
pub proof fn law_rehash_grows_and_keeps(t1: HashTable, t2: HashTable)
    requires
        t1.wf(),
        t2.regrown_from(t1),
        forall|x: u64| t1@.contains_key(x) ==> map_get(t1.kept(), x) == map_get(t1@, x),
    ensures
        t2.spec_len() > t1.spec_len(),
        forall|x: u64| t1@.contains_key(x) ==> map_get(t2@, x) == Some(t1@[x]),
{
    assert forall|x: u64| t1@.contains_key(x) implies map_get(t2@, x) == Some(t1@[x]) by {
        assert(map_get(t1.kept(), x) == map_get(t1@, x));
        assert(t1.kept().contains_key(x));
        assert(carried(t1.buckets@, x) == Some(t1@[x]));
        assert(first_live(t2.buckets@, x) == carried_upto(
            t1.buckets@,
            x,
            t1.spec_len() as int,
        ));
    }
}

/// A successful rehash leaves a tidy table in which lookups find exactly
/// what the old table kept: every digest that occupied a slot, deleted or
/// not, with the value of its last slot. A deleted key can thus come back.
pub proof fn law_rehash_keeps_kept(t1: HashTable, t2: HashTable)
    requires
        t2.regrown_from(t1),
    ensures
        t2.spec_len() > t1.spec_len(),
        t2@ == t1.kept(),
        t2.kept() == t1.kept(),
        t2.tidy(),
{
    assert forall|x: u64| #[trigger] first_live(t2.buckets@, x) == carried(t1.buckets@, x) by {
        assert(first_live(t2.buckets@, x) == carried_upto(t1.buckets@, x, t1.spec_len() as int));
    }
    assert forall|x: u64| #[trigger] carried(t2.buckets@, x) == carried(t1.buckets@, x) by {
        assert(carried(t2.buckets@, x) == carried_upto(t1.buckets@, x, t1.spec_len() as int));
    }
    assert(t2@ =~= t1.kept());
    assert(t2.kept() =~= t1.kept());
}

/// Deleting a key a second time changes no slot.
pub proof fn law_delete_twice(t0: HashTable, t1: HashTable, t2: HashTable, k: Seq<char>)
    requires
        t1.wf(),
        t1@ == t0@.remove(digest_of(k)),
        t2@ == t1@.remove(digest_of(k)),
        marked_upto(t1.slots(), t2.slots(), digest_of(k), scan_stop(t1.slots(), digest_of(k))),
    ensures
        t2.slots() == t1.slots(),
        t2@ == t1@,
{
    law_delete_missing(t1, t2, k);
}

} // verus!
