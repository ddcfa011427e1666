//! Decoding a position vector into a concrete timetable.
use vstd::prelude::*;
use crate::model::{RoomKey, CourseRequest, OptimizedCourse, GroupKey, room_key, group_key, valid_courses, MAX_SKS};

verus! {

/// A sort entry: a coordinate and the index of the section it belongs to.
pub type Entry = (i64, usize);

/// Entries order by coordinate, ties by section index (a stable order).
pub open spec fn entry_lt(a: Entry, b: Entry) -> bool {
    a.0 < b.0 || (a.0 == b.0 && a.1 < b.1)
}

/// Inserts `x` into `s` before the first entry that is greater than `x`.
pub open spec fn insert_entry(s: Seq<Entry>, x: Entry) -> Seq<Entry>
    decreases s.len(),
{
    if s.len() == 0 {
        seq![x]
    } else if entry_lt(x, s[0]) {
        seq![x] + s
    } else {
        seq![s[0]] + insert_entry(s.drop_first(), x)
    }
}

/// The entries of `s` in ascending order (insertion sort, stable).
pub open spec fn sort_entries(s: Seq<Entry>) -> Seq<Entry>
    decreases s.len(),
{
    if s.len() == 0 {
        s
    } else {
        insert_entry(sort_entries(s.drop_last()), s.last())
    }
}

proof fn lemma_insert_at(s: Seq<Entry>, x: Entry, p: int)
    requires
        0 <= p <= s.len(),
        forall|t: int| 0 <= t < p ==> !entry_lt(x, #[trigger] s[t]),
        p < s.len() ==> entry_lt(x, s[p]),
    ensures
        insert_entry(s, x) == s.take(p).push(x) + s.skip(p),
    decreases p,
{
    if p == 0 {
        if s.len() == 0 {
            assert(s.take(0).push(x) + s.skip(0) =~= seq![x]);
        } else {
            assert(s.take(0).push(x) + s.skip(0) =~= seq![x] + s);
        }
    } else {
        let t = s.drop_first();
        assert forall|k: int| 0 <= k < p - 1 implies !entry_lt(x, #[trigger] t[k]) by {
            assert(t[k] == s[k + 1]);
        }
        lemma_insert_at(t, x, p - 1);
        assert(!entry_lt(x, s[0]));
        assert(s.take(p).push(x) + s.skip(p) =~= seq![s[0]] + (t.take(p - 1).push(x) + t.skip(p - 1)));
    }
}

proof fn lemma_insert_contains(s: Seq<Entry>, x: Entry)
    ensures
        insert_entry(s, x).len() == s.len() + 1,
        insert_entry(s, x).contains(x),
        forall|y: Entry| s.contains(y) ==> insert_entry(s, x).contains(y),
        forall|y: Entry| insert_entry(s, x).contains(y) ==> y == x || s.contains(y),
    decreases s.len(),
{
    if s.len() > 0 && !entry_lt(x, s[0]) {
        let t = s.drop_first();
        lemma_insert_contains(t, x);
        let r = insert_entry(s, x);
        assert(r == seq![s[0]] + insert_entry(t, x));
        assert(r[0] == s[0]);
        assert forall|y: Entry| s.contains(y) implies r.contains(y) by {
            let k = choose|k: int| 0 <= k < s.len() && s[k] == y;
            if k > 0 {
                assert(t[k - 1] == y);
                assert(t.contains(y));
                let j = choose|j: int| 0 <= j < insert_entry(t, x).len() && insert_entry(t, x)[j] == y;
                assert(r[j + 1] == y);
            }
        }
        let j0 = choose|j: int| 0 <= j < insert_entry(t, x).len() && insert_entry(t, x)[j] == x;
        assert(r[j0 + 1] == x);
        assert forall|y: Entry| r.contains(y) implies y == x || s.contains(y) by {
            let k = choose|k: int| 0 <= k < r.len() && r[k] == y;
            if k > 0 {
                assert(insert_entry(t, x)[k - 1] == y);
                assert(insert_entry(t, x).contains(y));
                if y != x {
                    assert(t.contains(y));
                    let j = choose|j: int| 0 <= j < t.len() && t[j] == y;
                    assert(s[j + 1] == y);
                }
            }
        }
    } else if s.len() > 0 {
        let r = insert_entry(s, x);
        assert(r[0] == x);
        assert forall|y: Entry| s.contains(y) implies r.contains(y) by {
            let k = choose|k: int| 0 <= k < s.len() && s[k] == y;
            assert(r[k + 1] == y);
        }
        assert forall|y: Entry| r.contains(y) implies y == x || s.contains(y) by {
            let k = choose|k: int| 0 <= k < r.len() && r[k] == y;
            if k > 0 {
                assert(s[k - 1] == y);
            }
        }
    } else {
        assert(insert_entry(s, x)[0] == x);
    }
}

/// Every entry of `s` is in its sorted form, and nothing else is.
pub proof fn lemma_sort_contains(s: Seq<Entry>)
    ensures
        sort_entries(s).len() == s.len(),
        forall|y: Entry| s.contains(y) <==> sort_entries(s).contains(y),
    decreases s.len(),
{
    if s.len() > 0 {
        let p = s.drop_last();
        lemma_sort_contains(p);
        lemma_insert_contains(sort_entries(p), s.last());
        assert(sort_entries(s) == insert_entry(sort_entries(p), s.last()));
        assert forall|y: Entry| s.contains(y) <==> sort_entries(s).contains(y) by {
            if s.contains(y) {
                let k = choose|k: int| 0 <= k < s.len() && s[k] == y;
                if k < s.len() - 1 {
                    assert(p[k] == y);
                    assert(p.contains(y));
                }
            }
            if sort_entries(s).contains(y) && y != s.last() {
                assert(p.contains(y));
                let k = choose|k: int| 0 <= k < p.len() && p[k] == y;
                assert(s[k] == y);
            }
        }
    }
}

/// Sorts entries by coordinate, ties by section index.
pub fn sort_entries_exec(items: &Vec<Entry>) -> (r: Vec<Entry>)
    ensures
        r@ == sort_entries(items@),
{
    let mut out: Vec<Entry> = Vec::new();
    let mut i: usize = 0;
    while i < items.len()
        invariant
            i <= items.len(),
            out@ == sort_entries(items@.take(i as int)),
        decreases items.len() - i,
    {
        let x = items[i];
        let mut p: usize = 0;
        while p < out.len() && !(x.0 < out[p].0 || (x.0 == out[p].0 && x.1 < out[p].1))
            invariant
                p <= out.len(),
                forall|t: int| 0 <= t < p ==> !entry_lt(x, #[trigger] out@[t]),
            decreases out.len() - p,
        {
            p = p + 1;
        }
        proof {
            lemma_insert_at(out@, x, p as int);
            assert(items@.take(i as int + 1).drop_last() =~= items@.take(i as int));
            assert(items@.take(i as int + 1).last() == x);
        }
        out.insert(p, x);
        proof {
            assert(out@ =~= insert_entry(sort_entries(items@.take(i as int)), x));
        }
        i = i + 1;
    }
    proof {
        assert(items@.take(items.len() as int) =~= items@);
    }
    out
}


/// The lowest day at or after `d` whose load leaves room for `s` credit hours
/// under `cap`, or 5 when none does.
pub open spec fn first_fit(loads: Seq<int>, d: int, s: int, cap: int) -> int
    decreases 5 - d,
{
    if d >= 5 {
        5
    } else if loads[d] + s <= cap {
        d
    } else {
        first_fit(loads, d + 1, s, cap)
    }
}

/// Greedy packing of credit-hour loads, in the given order, into weekdays.
/// Returns the day pointer (never decreasing), the load of each day, and the
/// day (1 to 5) given to each load; when no day fits, day 5 takes it.
pub open spec fn pack_days(sks: Seq<u64>, cap: int) -> (int, Seq<int>, Seq<u64>)
    decreases sks.len(),
{
    if sks.len() == 0 {
        (0, seq![0int, 0, 0, 0, 0], Seq::empty())
    } else {
        let (d, loads, days) = pack_days(sks.drop_last(), cap);
        let s = sks.last() as int;
        let q = first_fit(loads, d, s, cap);
        if q < 5 {
            (q, loads.update(q, loads[q] + s), days.push((q + 1) as u64))
        } else {
            (5, loads, days.push(5))
        }
    }
}

pub open spec fn packed_days(sks: Seq<u64>, cap: int) -> Seq<u64> {
    pack_days(sks, cap).2
}

proof fn lemma_pack_bounds(sks: Seq<u64>, cap: int)
    requires
        cap >= 0,
    ensures
        0 <= pack_days(sks, cap).0 <= 5,
        pack_days(sks, cap).1.len() == 5,
        forall|k: int| 0 <= k < 5 ==> 0 <= #[trigger] pack_days(sks, cap).1[k] <= cap,
        pack_days(sks, cap).2.len() == sks.len(),
    decreases sks.len(),
{
    if sks.len() > 0 {
        lemma_pack_bounds(sks.drop_last(), cap);
        let (d, loads, days) = pack_days(sks.drop_last(), cap);
        lemma_first_fit(loads, d, sks.last() as int, cap);
    }
}

proof fn lemma_first_fit(loads: Seq<int>, d: int, s: int, cap: int)
    requires
        0 <= d <= 5,
    ensures
        d <= first_fit(loads, d, s, cap) <= 5,
        first_fit(loads, d, s, cap) < 5 ==> loads[first_fit(loads, d, s, cap)] + s <= cap,
    decreases 5 - d,
{
    if d < 5 && loads[d] + s > cap {
        lemma_first_fit(loads, d + 1, s, cap);
    }
}

/// Packs credit-hour loads, in order, into weekdays of capacity `cap`.
pub fn assign_days(sks: &Vec<u64>, cap: u64) -> (r: Vec<u64>)
    ensures
        r@ == packed_days(sks@, cap as int),
{
    let mut loads: Vec<u64> = vec![0, 0, 0, 0, 0];
    let mut d: usize = 0;
    let mut days: Vec<u64> = Vec::new();
    let mut i: usize = 0;
    while i < sks.len()
        invariant
            i <= sks.len(),
            loads.len() == 5,
            pack_days(sks@.take(i as int), cap as int).0 == d as int,
            forall|k: int| 0 <= k < 5 ==> pack_days(sks@.take(i as int), cap as int).1[k] == loads@[k] as int,
            pack_days(sks@.take(i as int), cap as int).2 == days@,
        decreases sks.len() - i,
    {
        let ghost prev = sks@.take(i as int);
        proof {
            lemma_pack_bounds(prev, cap as int);
            assert(sks@.take(i as int + 1).drop_last() =~= prev);
        }
        let ghost sloads = pack_days(prev, cap as int).1;
        let s = sks[i];
        let mut q: usize = d;
        while q < 5 && s > cap - loads[q]
            invariant
                d <= q <= 5,
                loads.len() == 5,
                forall|k: int| 0 <= k < 5 ==> sloads[k] == loads@[k] as int,
                forall|k: int| 0 <= k < 5 ==> 0 <= #[trigger] sloads[k] <= cap,
                first_fit(sloads, d as int, s as int, cap as int) == first_fit(sloads, q as int, s as int, cap as int),
            decreases 5 - q,
        {
            q = q + 1;
        }
        if q < 5 {
            let l = loads[q];
            loads.set(q, l + s);
            days.push((q + 1) as u64);
            d = q;
        } else {
            days.push(5);
            d = 5;
        }
        proof {
            let cur = sks@.take(i as int + 1);
            assert(cur.last() == s);
            let t = pack_days(cur, cap as int);
            assert forall|k: int| 0 <= k < 5 implies t.1[k] == loads@[k] as int by {}
        }
        i = i + 1;
    }
    proof {
        assert(sks@.take(sks.len() as int) =~= sks@);
    }
    days
}

/// The minute window [start, end) of a session category: category 2 is the
/// evening session, every other value the morning one.
pub open spec fn session_window(cat: u64) -> (int, int) {
    if cat == 2 {
        (1080, 1320)
    } else {
        (480, 720)
    }
}

pub fn window_of(cat: u64) -> (r: (u64, u64))
    ensures
        r.0 as int == session_window(cat).0,
        r.1 as int == session_window(cat).1,
{
    if cat == 2 {
        (1080, 1320)
    } else {
        (480, 720)
    }
}

/// Consecutive slots of `40 * sks` minutes from `start`; a slot that would end
/// past `end` starts again at `start`. Returns the cursor and the slots.
pub open spec fn walk_slots(sks: Seq<u64>, start: int, end: int) -> (int, Seq<(int, int)>)
    decreases sks.len(),
{
    if sks.len() == 0 {
        (start, Seq::empty())
    } else {
        let (cur, slots) = walk_slots(sks.drop_last(), start, end);
        let dur = 40 * sks.last();
        if cur + dur <= end {
            (cur + dur, slots.push((cur, cur + dur)))
        } else {
            (start + dur, slots.push((start, start + dur)))
        }
    }
}

proof fn lemma_walk_bounds(sks: Seq<u64>, start: int, end: int)
    requires
        0 <= start <= end,
        forall|k: int| 0 <= k < sks.len() ==> sks[k] <= MAX_SKS,
    ensures
        start <= walk_slots(sks, start, end).0 <= end + 40 * MAX_SKS,
        walk_slots(sks, start, end).1.len() == sks.len(),
    decreases sks.len(),
{
    if sks.len() > 0 {
        lemma_walk_bounds(sks.drop_last(), start, end);
    }
}

/// Walks the sessions' slots for loads taken in order.
pub fn assign_times(sks: &Vec<u64>, start: u64, end: u64) -> (r: Vec<(u64, u64)>)
    requires
        start <= end <= 1320,
        forall|k: int| 0 <= k < sks@.len() ==> sks@[k] <= MAX_SKS,
    ensures
        r@.len() == sks@.len(),
        forall|k: int| 0 <= k < r@.len() ==> r@[k].0 as int == (#[trigger] walk_slots(sks@, start as int, end as int).1[k]).0
            && r@[k].1 as int == walk_slots(sks@, start as int, end as int).1[k].1,
{
    let mut cur: u64 = start;
    let mut out: Vec<(u64, u64)> = Vec::new();
    let mut i: usize = 0;
    while i < sks.len()
        invariant
            i <= sks.len(),
            start <= end <= 1320,
            forall|k: int| 0 <= k < sks@.len() ==> sks@[k] <= MAX_SKS,
            walk_slots(sks@.take(i as int), start as int, end as int).0 == cur as int,
            out@.len() == i,
            forall|k: int| 0 <= k < i ==> out@[k].0 as int == (#[trigger] walk_slots(sks@.take(i as int), start as int, end as int).1[k]).0
                && out@[k].1 as int == walk_slots(sks@.take(i as int), start as int, end as int).1[k].1,
        decreases sks.len() - i,
    {
        let ghost prev = sks@.take(i as int);
        proof {
            lemma_walk_bounds(prev, start as int, end as int);
            assert(sks@.take(i as int + 1).drop_last() =~= prev);
        }
        let dur = sks[i] * 40;
        if cur + dur <= end {
            out.push((cur, cur + dur));
            cur = cur + dur;
        } else {
            out.push((start, start + dur));
            cur = start + dur;
        }
        i = i + 1;
    }
    proof {
        assert(sks@.take(sks.len() as int) =~= sks@);
    }
    out
}


/// Lexicographic order of room keys.
pub open spec fn room_key_lt(a: RoomKey, b: RoomKey) -> bool {
    a.0 < b.0 || (a.0 == b.0 && (a.1 < b.1 || (a.1 == b.1 && a.2 < b.2)))
}

/// Section `j` is the first among `cs` with its room key.
pub open spec fn first_of_room_key(cs: Seq<CourseRequest>, j: int) -> bool {
    forall|t: int| 0 <= t < j ==> room_key(#[trigger] cs[t]) != room_key(cs[j])
}

/// The number of distinct room keys among the first `n` sections that are
/// smaller than `k`.
pub open spec fn keys_below(cs: Seq<CourseRequest>, k: RoomKey, n: int) -> int
    decreases n,
{
    if n <= 0 {
        0
    } else {
        keys_below(cs, k, n - 1) + if first_of_room_key(cs, n - 1) && room_key_lt(room_key(cs[n - 1]), k) {
            1int
        } else {
            0
        }
    }
}

/// Rooms go round-robin over the sorted distinct room keys, from room 1.
pub open spec fn room_of(cs: Seq<CourseRequest>, room_count: int, k: RoomKey) -> int {
    keys_below(cs, k, cs.len() as int) % room_count + 1
}

proof fn lemma_keys_below_bounds(cs: Seq<CourseRequest>, k: RoomKey, n: int)
    ensures
        0 <= keys_below(cs, k, n) <= if n < 0 { 0 } else { n },
    decreases n,
{
    if n > 0 {
        lemma_keys_below_bounds(cs, k, n - 1);
    }
}

fn room_key_less(a: &CourseRequest, b: &CourseRequest) -> (r: bool)
    ensures
        r == room_key_lt(room_key(*a), room_key(*b)),
{
    a.prodi < b.prodi || (a.prodi == b.prodi && (a.semester < b.semester || (a.semester == b.semester
        && a.id_kelas < b.id_kelas)))
}

/// The room of each section: its room key's rank among the distinct keys,
/// taken round-robin over rooms `1..=room_count`.
pub fn allocate_rooms(courses: &Vec<CourseRequest>, room_count: u64) -> (r: Vec<u64>)
    requires
        room_count >= 1,
    ensures
        r@.len() == courses@.len(),
        forall|i: int| 0 <= i < r@.len() ==> r@[i] as int == room_of(courses@, room_count as int, room_key(#[trigger] courses@[i])),
{
    let n = courses.len();
    let mut first: Vec<bool> = Vec::new();
    let mut j: usize = 0;
    while j < n
        invariant
            j <= n == courses@.len(),
            first@.len() == j,
            forall|t: int| 0 <= t < j ==> first@[t] == first_of_room_key(courses@, t),
        decreases n - j,
    {
        let mut t: usize = 0;
        let mut fresh = true;
        while t < j
            invariant
                t <= j < n == courses@.len(),
                fresh == forall|u: int| 0 <= u < t ==> room_key(#[trigger] courses@[u]) != room_key(courses@[j as int]),
            decreases j - t,
        {
            if courses[t].prodi == courses[j].prodi && courses[t].semester == courses[j].semester
                && courses[t].id_kelas == courses[j].id_kelas {
                fresh = false;
            }
            t = t + 1;
        }
        first.push(fresh);
        j = j + 1;
    }
    let mut rooms: Vec<u64> = Vec::new();
    let mut i: usize = 0;
    while i < n
        invariant
            i <= n == courses@.len(),
            first@.len() == n,
            room_count >= 1,
            forall|t: int| 0 <= t < n ==> first@[t] == first_of_room_key(courses@, t),
            rooms@.len() == i,
            forall|u: int| 0 <= u < i ==> rooms@[u] as int == room_of(courses@, room_count as int, room_key(#[trigger] courses@[u])),
        decreases n - i,
    {
        let mut below: u64 = 0;
        let mut t: usize = 0;
        while t < n
            invariant
                t <= n == courses@.len(),
                i < n,
                first@.len() == n,
                forall|u: int| 0 <= u < n ==> first@[u] == first_of_room_key(courses@, u),
                below as int == keys_below(courses@, room_key(courses@[i as int]), t as int),
            decreases n - t,
        {
            proof {
                lemma_keys_below_bounds(courses@, room_key(courses@[i as int]), t as int);
            }
            if first[t] && room_key_less(&courses[t], &courses[i]) {
                below = below + 1;
            }
            t = t + 1;
        }
        rooms.push(below % room_count + 1);
        i = i + 1;
    }
    rooms
}


/// The number of sections a position of length `len` decodes: section `i`
/// needs coordinates `2 * i` and `2 * i + 1`; the rest are skipped.
pub open spec fn decoded_count(n: int, len: int) -> int {
    if n < len / 2 {
        n
    } else {
        len / 2
    }
}

/// Day-order entries of the sections among the first `n` with group key `k`.
pub open spec fn group_entries(cs: Seq<CourseRequest>, pos: Seq<i64>, k: GroupKey, n: int) -> Seq<Entry>
    decreases n,
{
    if n <= 0 {
        Seq::empty()
    } else {
        let prev = group_entries(cs, pos, k, n - 1);
        if group_key(cs[n - 1]) == k {
            prev.push((pos[2 * (n - 1)], (n - 1) as usize))
        } else {
            prev
        }
    }
}

/// Within-day entries of the sections among the first `n` with group key `k`
/// and day `d` in `hari`.
pub open spec fn day_group_entries(
    cs: Seq<CourseRequest>,
    pos: Seq<i64>,
    hari: Seq<u64>,
    k: GroupKey,
    d: u64,
    n: int,
) -> Seq<Entry>
    decreases n,
{
    if n <= 0 {
        Seq::empty()
    } else {
        let prev = day_group_entries(cs, pos, hari, k, d, n - 1);
        if group_key(cs[n - 1]) == k && hari[n - 1] == d {
            prev.push((pos[2 * (n - 1) + 1], (n - 1) as usize))
        } else {
            prev
        }
    }
}

/// Credit hours per day of a group: 3 for a group of exactly four sections,
/// 6 otherwise.
pub open spec fn group_capacity(len: int) -> int {
    if len == 4 {
        3
    } else {
        6
    }
}

/// The credit hours of the sections that entries point at, in entry order.
pub open spec fn entry_loads(cs: Seq<CourseRequest>, es: Seq<Entry>) -> Seq<u64> {
    es.map_values(|e: Entry| cs[e.1 as int].sks)
}

/// The group of section `i` sorted by day-order coordinate.
pub open spec fn day_order(cs: Seq<CourseRequest>, pos: Seq<i64>, m: int, i: int) -> Seq<Entry> {
    sort_entries(group_entries(cs, pos, group_key(cs[i]), m))
}

/// Section `i` has the day that greedy packing of its sorted group gives it.
pub open spec fn day_decoded(cs: Seq<CourseRequest>, pos: Seq<i64>, m: int, i: int, h: u64) -> bool {
    let ord = day_order(cs, pos, m, i);
    exists|q: int|
        0 <= q < ord.len() && (#[trigger] ord[q]).1 == i && h == packed_days(
            entry_loads(cs, ord),
            group_capacity(ord.len() as int),
        )[q]
}

pub open spec fn days_of(s: Seq<OptimizedCourse>) -> Seq<u64> {
    s.map_values(|c: OptimizedCourse| c.hari)
}

/// Those of `i`'s group that share its day, sorted by within-day coordinate.
pub open spec fn time_order(cs: Seq<CourseRequest>, pos: Seq<i64>, hari: Seq<u64>, m: int, i: int) -> Seq<Entry> {
    sort_entries(day_group_entries(cs, pos, hari, group_key(cs[i]), hari[i], m))
}

/// Section `i` has the slot that walking its sorted day group gives it.
pub open spec fn time_decoded(
    cs: Seq<CourseRequest>,
    pos: Seq<i64>,
    hari: Seq<u64>,
    m: int,
    i: int,
    start: u64,
    end: u64,
) -> bool {
    let ord = time_order(cs, pos, hari, m, i);
    let w = session_window(cs[i].id_waktu);
    exists|q: int|
        0 <= q < ord.len() && (#[trigger] ord[q]).1 == i
            && start as int == walk_slots(entry_loads(cs, ord), w.0, w.1).1[q].0
            && end as int == walk_slots(entry_loads(cs, ord), w.0, w.1).1[q].1
}

/// `o` is section `c` with room `room`; day and times aside.
pub open spec fn carries(o: OptimizedCourse, c: CourseRequest, room: u64) -> bool {
    &&& o.id_jadwal == c.id_jadwal
    &&& o.id_matkul == c.id_matkul
    &&& o.id_dosen == c.id_dosen
    &&& o.id_kelas == c.id_kelas
    &&& o.id_waktu == c.id_waktu
    &&& o.semester == c.semester
    &&& o.sks == c.sks
    &&& o.prodi == c.prodi
    &&& o.ruangan == room
}

proof fn lemma_group_entries(cs: Seq<CourseRequest>, pos: Seq<i64>, k: GroupKey, n: int)
    requires
        0 <= n <= cs.len(),
        n <= usize::MAX,
        2 * n <= pos.len(),
    ensures
        forall|e: Entry| #[trigger] group_entries(cs, pos, k, n).contains(e) ==> 0 <= e.1 < n
            && group_key(cs[e.1 as int]) == k && e.0 == pos[2 * e.1],
        forall|j: int| 0 <= j < n && group_key(cs[j]) == k ==> group_entries(cs, pos, k, n).contains((pos[2 * j], j as usize)),
    decreases n,
{
    if n > 0 {
        lemma_group_entries(cs, pos, k, n - 1);
        let prev = group_entries(cs, pos, k, n - 1);
        let cur = group_entries(cs, pos, k, n);
        assert forall|e: Entry| #[trigger] cur.contains(e) implies 0 <= e.1 < n && group_key(cs[e.1 as int]) == k
            && e.0 == pos[2 * e.1] by {
            let t = choose|t: int| 0 <= t < cur.len() && cur[t] == e;
            if t < prev.len() {
                assert(prev[t] == e);
                assert(prev.contains(e));
            } else {
                assert(e.1 as int == n - 1);
            }
        }
        assert forall|j: int| 0 <= j < n && group_key(cs[j]) == k implies cur.contains((pos[2 * j], j as usize)) by {
            if j < n - 1 {
                let t = choose|t: int| 0 <= t < prev.len() && prev[t] == (pos[2 * j], j as usize);
                assert(cur[t] == prev[t]);
            } else {
                assert(cur[cur.len() - 1] == (pos[2 * j], j as usize));
            }
        }
    }
}

proof fn lemma_day_group_entries(cs: Seq<CourseRequest>, pos: Seq<i64>, hari: Seq<u64>, k: GroupKey, d: u64, n: int)
    requires
        0 <= n <= cs.len(),
        n <= usize::MAX,
        n <= hari.len(),
        2 * n <= pos.len(),
    ensures
        forall|e: Entry| #[trigger] day_group_entries(cs, pos, hari, k, d, n).contains(e) ==> 0 <= e.1 < n
            && group_key(cs[e.1 as int]) == k && hari[e.1 as int] == d && e.0 == pos[2 * e.1 + 1],
        forall|j: int| 0 <= j < n && group_key(cs[j]) == k && hari[j] == d
            ==> day_group_entries(cs, pos, hari, k, d, n).contains((pos[2 * j + 1], j as usize)),
    decreases n,
{
    if n > 0 {
        lemma_day_group_entries(cs, pos, hari, k, d, n - 1);
        let prev = day_group_entries(cs, pos, hari, k, d, n - 1);
        let cur = day_group_entries(cs, pos, hari, k, d, n);
        assert forall|e: Entry| #[trigger] cur.contains(e) implies 0 <= e.1 < n && group_key(cs[e.1 as int]) == k
            && hari[e.1 as int] == d && e.0 == pos[2 * e.1 + 1] by {
            let t = choose|t: int| 0 <= t < cur.len() && cur[t] == e;
            if t < prev.len() {
                assert(prev[t] == e);
                assert(prev.contains(e));
            } else {
                assert(e.1 as int == n - 1);
            }
        }
        assert forall|j: int| 0 <= j < n && group_key(cs[j]) == k && hari[j] == d
            implies cur.contains((pos[2 * j + 1], j as usize)) by {
            if j < n - 1 {
                let t = choose|t: int| 0 <= t < prev.len() && prev[t] == (pos[2 * j + 1], j as usize);
                assert(cur[t] == prev[t]);
            } else {
                assert(cur[cur.len() - 1] == (pos[2 * j + 1], j as usize));
            }
        }
    }
}

fn same_group(a: &CourseRequest, b: &CourseRequest) -> (r: bool)
    ensures
        r == (group_key(*a) == group_key(*b)),
{
    a.prodi == b.prodi && a.semester == b.semester && a.id_kelas == b.id_kelas && a.id_waktu == b.id_waktu
}

fn loads_of(courses: &Vec<CourseRequest>, es: &Vec<Entry>) -> (r: Vec<u64>)
    requires
        forall|q: int| 0 <= q < es@.len() ==> (#[trigger] es@[q]).1 < courses@.len(),
    ensures
        r@ == entry_loads(courses@, es@),
{
    let mut r: Vec<u64> = Vec::new();
    let mut q: usize = 0;
    while q < es.len()
        invariant
            q <= es@.len(),
            forall|t: int| 0 <= t < es@.len() ==> (#[trigger] es@[t]).1 < courses@.len(),
            r@ =~= entry_loads(courses@, es@).take(q as int),
        decreases es.len() - q,
    {
        r.push(courses[es[q].1].sks);
        q = q + 1;
    }
    proof {
        assert(entry_loads(courses@, es@).take(es@.len() as int) =~= entry_loads(courses@, es@));
    }
    r
}


/// `a` and `b` agree on every field but the day and the times.
pub open spec fn same_but_slot(a: OptimizedCourse, b: OptimizedCourse) -> bool {
    &&& a.id_jadwal == b.id_jadwal
    &&& a.id_matkul == b.id_matkul
    &&& a.id_dosen == b.id_dosen
    &&& a.id_kelas == b.id_kelas
    &&& a.id_waktu == b.id_waktu
    &&& a.ruangan == b.ruangan
    &&& a.semester == b.semester
    &&& a.sks == b.sks
    &&& a.prodi == b.prodi
}

/// Some section before `i` has group key `k`.
pub open spec fn key_seen(cs: Seq<CourseRequest>, i: int, k: GroupKey) -> bool {
    exists|t: int| 0 <= t < i && group_key(#[trigger] cs[t]) == k
}

/// Some section before `i` has group key `k` and day `d`.
pub open spec fn day_key_seen(cs: Seq<CourseRequest>, hari: Seq<u64>, i: int, k: GroupKey, d: u64) -> bool {
    exists|t: int| 0 <= t < i && group_key(#[trigger] cs[t]) == k && hari[t] == d
}

/// The undecided timetable: each decodable section with its room.
fn base_schedule(courses: &Vec<CourseRequest>, rooms: &Vec<u64>, m: usize) -> (r: Vec<OptimizedCourse>)
    requires
        m <= courses@.len(),
        rooms@.len() == courses@.len(),
    ensures
        r@.len() == m,
        forall|i: int| 0 <= i < m ==> carries(#[trigger] r@[i], courses@[i], rooms@[i]),
{
    let mut r: Vec<OptimizedCourse> = Vec::new();
    let mut i: usize = 0;
    while i < m
        invariant
            i <= m <= courses@.len(),
            rooms@.len() == courses@.len(),
            r@.len() == i,
            forall|j: int| 0 <= j < i ==> carries(#[trigger] r@[j], courses@[j], rooms@[j]),
        decreases m - i,
    {
        let c = courses[i];
        r.push(OptimizedCourse {
            id_jadwal: c.id_jadwal,
            id_matkul: c.id_matkul,
            id_dosen: c.id_dosen,
            id_kelas: c.id_kelas,
            id_waktu: c.id_waktu,
            hari: 0,
            jam_mulai: 0,
            jam_akhir: 0,
            ruangan: rooms[i],
            semester: c.semester,
            sks: c.sks,
            prodi: c.prodi,
        });
        i = i + 1;
    }
    r
}

/// Gives every section the day of greedy packing within its group.
#[verifier::rlimit(50)]
fn pack_group_days(out: &mut Vec<OptimizedCourse>, position: &Vec<i64>, courses: &Vec<CourseRequest>, m: usize)
    requires
        old(out)@.len() == m,
        m <= courses@.len(),
        2 * m <= position@.len(),
    ensures
        final(out)@.len() == m,
        forall|i: int| 0 <= i < m ==> same_but_slot(#[trigger] final(out)@[i], old(out)@[i]),
        forall|i: int| 0 <= i < m ==> day_decoded(courses@, position@, m as int, i, (#[trigger] final(out)@[i]).hari),
{
    let ghost cs = courses@;
    let ghost pos = position@;
    let plen: usize = position.len();
    let mut i: usize = 0;
    while i < m
        invariant
            plen as int == pos.len(),
            i <= m <= cs.len(),
            cs == courses@,
            pos == position@,
            2 * m <= pos.len(),
            out@.len() == m,
            forall|j: int| 0 <= j < m ==> same_but_slot(#[trigger] out@[j], old(out)@[j]),
            forall|j: int| 0 <= j < m && key_seen(cs, i as int, group_key(cs[j])) ==> day_decoded(cs, pos, m as int, j, (#[trigger] out@[j]).hari),
        decreases m - i,
    {
        let ghost k = group_key(cs[i as int]);
        let mut t: usize = 0;
        let mut fresh = true;
        while t < i
            invariant
                t <= i < m <= cs.len(),
                cs == courses@,
                k == group_key(cs[i as int]),
                fresh == !key_seen(cs, t as int, k),
            decreases i - t,
        {
            if same_group(&courses[t], &courses[i]) {
                fresh = false;
            }
            t = t + 1;
        }
        if fresh {
            let mut es: Vec<Entry> = Vec::new();
            let mut j: usize = 0;
            while j < m
                invariant
                    plen as int == pos.len(),
                    j <= m <= cs.len(),
                    i < m,
                    cs == courses@,
                    pos == position@,
                    2 * m <= pos.len(),
                    k == group_key(cs[i as int]),
                    es@ == group_entries(cs, pos, k, j as int),
                decreases m - j,
            {
                if same_group(&courses[j], &courses[i]) {
                    es.push((position[2 * j], j));
                }
                j = j + 1;
            }
            let ord = sort_entries_exec(&es);
            proof {
                lemma_group_entries(cs, pos, k, m as int);
                lemma_sort_contains(es@);
                assert forall|q: int| 0 <= q < ord@.len() implies (#[trigger] ord@[q]).1 < m && group_key(cs[ord@[q].1 as int]) == k by {
                    assert(ord@.contains(ord@[q]));
                    assert(es@.contains(ord@[q]));
                }
            }
            let loads = loads_of(courses, &ord);
            let cap: u64 = if ord.len() == 4 { 3 } else { 6 };
            let days = assign_days(&loads, cap);
            proof {
                lemma_pack_bounds(loads@, cap as int);
            }
            let ghost before = out@;
            let mut q: usize = 0;
            while q < ord.len()
                invariant
                    q <= ord@.len() == days@.len(),
                    cs == courses@,
                    pos == position@,
                    ord@ == sort_entries(group_entries(cs, pos, k, m as int)),
                    days@ == packed_days(entry_loads(cs, ord@), group_capacity(ord@.len() as int)),
                    forall|p: int| 0 <= p < ord@.len() ==> (#[trigger] ord@[p]).1 < m && group_key(cs[ord@[p].1 as int]) == k,
                    out@.len() == m,
                    before.len() == m,
                    forall|j: int| 0 <= j < m ==> same_but_slot(#[trigger] out@[j], before[j]),
                    forall|j: int| 0 <= j < m && group_key(cs[j]) != k ==> #[trigger] out@[j] == before[j],
                    forall|j: int| 0 <= j < m && group_key(cs[j]) == k && (exists|p: int| 0 <= p < q && (#[trigger] ord@[p]).1 == j)
                        ==> day_decoded(cs, pos, m as int, j, (#[trigger] out@[j]).hari),
                decreases ord.len() - q,
            {
                let idx = ord[q].1;
                let mut c = out[idx];
                c.hari = days[q];
                out.set(idx, c);
                proof {
                    assert(day_order(cs, pos, m as int, idx as int) == ord@);
                    assert(ord@[q as int].1 == idx);
                    assert(day_decoded(cs, pos, m as int, idx as int, out@[idx as int].hari));
                }
                q = q + 1;
            }
            proof {
                assert forall|j: int| 0 <= j < m && key_seen(cs, i as int + 1, group_key(cs[j]))
                    implies day_decoded(cs, pos, m as int, j, (#[trigger] out@[j]).hari) by {
                    if group_key(cs[j]) == k {
                        assert(es@.contains((pos[2 * j], j as usize)));
                        assert(ord@.contains((pos[2 * j], j as usize)));
                        let p = choose|p: int| 0 <= p < ord@.len() && ord@[p] == (pos[2 * j], j as usize);
                        assert(ord@[p].1 == j);
                    } else {
                        let t = choose|t: int| 0 <= t < i + 1 && group_key(#[trigger] cs[t]) == group_key(cs[j]);
                        assert(t != i);
                        assert(key_seen(cs, i as int, group_key(cs[j])));
                    }
                }
            }
        } else {
            proof {
                assert forall|j: int| 0 <= j < m && key_seen(cs, i as int + 1, group_key(cs[j]))
                    implies day_decoded(cs, pos, m as int, j, (#[trigger] out@[j]).hari) by {
                    let t = choose|t: int| 0 <= t < i + 1 && group_key(#[trigger] cs[t]) == group_key(cs[j]);
                    if t == i {
                        let t2 = choose|t2: int| 0 <= t2 < i && group_key(#[trigger] cs[t2]) == k;
                        assert(key_seen(cs, i as int, group_key(cs[j])));
                    } else {
                        assert(key_seen(cs, i as int, group_key(cs[j])));
                    }
                }
            }
        }
        i = i + 1;
    }
    proof {
        assert forall|j: int| 0 <= j < m implies day_decoded(cs, pos, m as int, j, (#[trigger] out@[j]).hari) by {
            assert(key_seen(cs, m as int, group_key(cs[j])));
        }
    }
}


/// Gives every section the slot of walking its (group, day) in within-day
/// order through its session's window.
#[verifier::rlimit(50)]
fn place_group_times(out: &mut Vec<OptimizedCourse>, position: &Vec<i64>, courses: &Vec<CourseRequest>, m: usize)
    requires
        old(out)@.len() == m,
        m <= courses@.len(),
        2 * m <= position@.len(),
        valid_courses(courses@),
        forall|i: int| 0 <= i < m ==> (#[trigger] old(out)@[i]).id_waktu == courses@[i].id_waktu,
    ensures
        final(out)@.len() == m,
        forall|i: int| 0 <= i < m ==> same_but_slot(#[trigger] final(out)@[i], old(out)@[i]),
        forall|i: int| 0 <= i < m ==> (#[trigger] final(out)@[i]).hari == old(out)@[i].hari,
        forall|i: int| 0 <= i < m ==> time_decoded(courses@, position@, days_of(old(out)@), m as int, i,
            (#[trigger] final(out)@[i]).jam_mulai, final(out)@[i].jam_akhir),
{
    let ghost cs = courses@;
    let ghost pos = position@;
    let ghost hari = days_of(out@);
    let plen: usize = position.len();
    let mut i: usize = 0;
    while i < m
        invariant
            plen as int == pos.len(),
            i <= m <= cs.len(),
            cs == courses@,
            pos == position@,
            valid_courses(cs),
            2 * m <= pos.len(),
            out@.len() == m,
            hari.len() == m,
            hari == days_of(old(out)@),
            forall|j: int| 0 <= j < m ==> same_but_slot(#[trigger] out@[j], old(out)@[j]),
            forall|j: int| 0 <= j < m ==> (#[trigger] out@[j]).hari == hari[j],
            forall|j: int| 0 <= j < m ==> (#[trigger] old(out)@[j]).id_waktu == cs[j].id_waktu,
            forall|j: int| 0 <= j < m && day_key_seen(cs, hari, i as int, group_key(cs[j]), hari[j])
                ==> time_decoded(cs, pos, hari, m as int, j, (#[trigger] out@[j]).jam_mulai, out@[j].jam_akhir),
        decreases m - i,
    {
        let ghost k = group_key(cs[i as int]);
        let d = out[i].hari;
        let mut t: usize = 0;
        let mut fresh = true;
        while t < i
            invariant
                t <= i < m <= cs.len(),
                cs == courses@,
                out@.len() == m,
                hari.len() == m,
                forall|j: int| 0 <= j < m ==> (#[trigger] out@[j]).hari == hari[j],
                k == group_key(cs[i as int]),
                d == hari[i as int],
                fresh == !day_key_seen(cs, hari, t as int, k, d),
            decreases i - t,
        {
            if same_group(&courses[t], &courses[i]) && out[t].hari == d {
                fresh = false;
            }
            t = t + 1;
        }
        if fresh {
            let mut es: Vec<Entry> = Vec::new();
            let mut j: usize = 0;
            while j < m
                invariant
                    plen as int == pos.len(),
                    j <= m <= cs.len(),
                    i < m,
                    cs == courses@,
                    pos == position@,
                    2 * m <= pos.len(),
                    out@.len() == m,
                    hari.len() == m,
                    forall|u: int| 0 <= u < m ==> (#[trigger] out@[u]).hari == hari[u],
                    k == group_key(cs[i as int]),
                    es@ == day_group_entries(cs, pos, hari, k, d, j as int),
                decreases m - j,
            {
                if same_group(&courses[j], &courses[i]) && out[j].hari == d {
                    es.push((position[2 * j + 1], j));
                }
                j = j + 1;
            }
            let ord = sort_entries_exec(&es);
            proof {
                lemma_day_group_entries(cs, pos, hari, k, d, m as int);
                lemma_sort_contains(es@);
                assert forall|q: int| 0 <= q < ord@.len() implies (#[trigger] ord@[q]).1 < m
                    && group_key(cs[ord@[q].1 as int]) == k && hari[ord@[q].1 as int] == d by {
                    assert(ord@.contains(ord@[q]));
                    assert(es@.contains(ord@[q]));
                }
            }
            let loads = loads_of(courses, &ord);
            let w = window_of(courses[i].id_waktu);
            let slots = assign_times(&loads, w.0, w.1);
            let ghost before = out@;
            let mut q: usize = 0;
            while q < ord.len()
                invariant
                    q <= ord@.len() == slots@.len(),
                    cs == courses@,
                    pos == position@,
                    hari.len() == m,
                    ord@ == sort_entries(day_group_entries(cs, pos, hari, k, d, m as int)),
                    w.0 as int == session_window(cs[i as int].id_waktu).0,
                    w.1 as int == session_window(cs[i as int].id_waktu).1,
                    i < m,
                    k == group_key(cs[i as int]),
                    d == hari[i as int],
                    forall|p: int| 0 <= p < slots@.len() ==> slots@[p].0 as int == (#[trigger] walk_slots(entry_loads(cs, ord@), w.0 as int, w.1 as int).1[p]).0
                        && slots@[p].1 as int == walk_slots(entry_loads(cs, ord@), w.0 as int, w.1 as int).1[p].1,
                    forall|p: int| 0 <= p < ord@.len() ==> (#[trigger] ord@[p]).1 < m && group_key(cs[ord@[p].1 as int]) == k
                        && hari[ord@[p].1 as int] == d,
                    out@.len() == m,
                    before.len() == m,
                    forall|j: int| 0 <= j < m ==> same_but_slot(#[trigger] out@[j], before[j]),
                    forall|j: int| 0 <= j < m ==> (#[trigger] out@[j]).hari == before[j].hari,
                    forall|j: int| 0 <= j < m && (group_key(cs[j]) != k || hari[j] != d) ==> #[trigger] out@[j] == before[j],
                    forall|j: int| 0 <= j < m && group_key(cs[j]) == k && hari[j] == d && (exists|p: int| 0 <= p < q && (#[trigger] ord@[p]).1 == j)
                        ==> time_decoded(cs, pos, hari, m as int, j, (#[trigger] out@[j]).jam_mulai, out@[j].jam_akhir),
                decreases ord.len() - q,
            {
                let idx = ord[q].1;
                let mut c = out[idx];
                c.jam_mulai = slots[q].0;
                c.jam_akhir = slots[q].1;
                out.set(idx, c);
                proof {
                    assert(time_order(cs, pos, hari, m as int, idx as int) == ord@);
                    assert(ord@[q as int].1 == idx);
                    assert(time_decoded(cs, pos, hari, m as int, idx as int, out@[idx as int].jam_mulai, out@[idx as int].jam_akhir));
                }
                q = q + 1;
            }
            proof {
                assert forall|j: int| 0 <= j < m && day_key_seen(cs, hari, i as int + 1, group_key(cs[j]), hari[j])
                    implies time_decoded(cs, pos, hari, m as int, j, (#[trigger] out@[j]).jam_mulai, out@[j].jam_akhir) by {
                    if group_key(cs[j]) == k && hari[j] == d {
                        assert(es@.contains((pos[2 * j + 1], j as usize)));
                        assert(ord@.contains((pos[2 * j + 1], j as usize)));
                        let p = choose|p: int| 0 <= p < ord@.len() && ord@[p] == (pos[2 * j + 1], j as usize);
                        assert(ord@[p].1 == j);
                    } else {
                        let t = choose|t: int| 0 <= t < i + 1 && group_key(#[trigger] cs[t]) == group_key(cs[j]) && hari[t] == hari[j];
                        assert(t != i);
                        assert(day_key_seen(cs, hari, i as int, group_key(cs[j]), hari[j]));
                    }
                }
            }
        } else {
            proof {
                assert forall|j: int| 0 <= j < m && day_key_seen(cs, hari, i as int + 1, group_key(cs[j]), hari[j])
                    implies time_decoded(cs, pos, hari, m as int, j, (#[trigger] out@[j]).jam_mulai, out@[j].jam_akhir) by {
                    let t = choose|t: int| 0 <= t < i + 1 && group_key(#[trigger] cs[t]) == group_key(cs[j]) && hari[t] == hari[j];
                    if t == i {
                        let t2 = choose|t2: int| 0 <= t2 < i && group_key(#[trigger] cs[t2]) == k && hari[t2] == d;
                        assert(day_key_seen(cs, hari, i as int, group_key(cs[j]), hari[j]));
                    } else {
                        assert(day_key_seen(cs, hari, i as int, group_key(cs[j]), hari[j]));
                    }
                }
            }
        }
        i = i + 1;
    }
    proof {
        assert forall|j: int| 0 <= j < m implies time_decoded(cs, pos, hari, m as int, j,
            (#[trigger] out@[j]).jam_mulai, out@[j].jam_akhir) by {
            assert(day_key_seen(cs, hari, m as int, group_key(cs[j]), hari[j]));
        }
    }
}


/// What decoding `pos` against `cs` with rooms `rooms` yields: one section for
/// each coordinate pair, in input order, with its room, the day of greedy
/// packing within its group, and the slot of walking its group's day.
pub open spec fn decodes_to(
    cs: Seq<CourseRequest>,
    pos: Seq<i64>,
    rooms: Seq<u64>,
    r: Seq<OptimizedCourse>,
) -> bool {
    let m = decoded_count(cs.len() as int, pos.len() as int);
    &&& r.len() == m
    &&& forall|i: int| 0 <= i < m ==> carries(#[trigger] r[i], cs[i], rooms[i])
    &&& forall|i: int| 0 <= i < m ==> day_decoded(cs, pos, m, i, (#[trigger] r[i]).hari)
    &&& forall|i: int| 0 <= i < m ==> time_decoded(cs, pos, days_of(r), m, i, (#[trigger] r[i]).jam_mulai, r[i].jam_akhir)
}

/// Decodes a position with rooms already allocated (one per section).
pub fn decode_schedule(position: &Vec<i64>, courses: &Vec<CourseRequest>, rooms: &Vec<u64>) -> (r: Vec<OptimizedCourse>)
    requires
        rooms@.len() == courses@.len(),
        valid_courses(courses@),
    ensures
        decodes_to(courses@, position@, rooms@, r@),
{
    let half = position.len() / 2;
    let m: usize = if courses.len() < half { courses.len() } else { half };
    let mut out = base_schedule(courses, rooms, m);
    pack_group_days(&mut out, position, courses, m);
    let ghost mid = out@;
    place_group_times(&mut out, position, courses, m);
    proof {
        assert(days_of(mid) =~= days_of(out@));
        assert forall|i: int| 0 <= i < m implies carries(#[trigger] out@[i], courses@[i], rooms@[i]) by {
            assert(same_but_slot(out@[i], mid[i]));
        }
        assert forall|i: int| 0 <= i < m implies day_decoded(courses@, position@, m as int, i, (#[trigger] out@[i]).hari) by {
            assert(out@[i].hari == mid[i].hari);
        }
    }
    out
}

/// Decodes a position vector into a timetable. Rooms depend on the sections
/// and `room_count` alone; days and times on the sections and the position.
pub fn position_to_schedule(position: &Vec<i64>, courses: &Vec<CourseRequest>, room_count: u64) -> (r: Vec<OptimizedCourse>)
    requires
        room_count >= 1,
        valid_courses(courses@),
    ensures
        decodes_to(courses@, position@, rooms_of(courses@, room_count as int), r@),
{
    let rooms = allocate_rooms(courses, room_count);
    proof {
        assert(rooms@ =~= rooms_of(courses@, room_count as int));
    }
    decode_schedule(position, courses, &rooms)
}

/// The room of each section.
pub open spec fn rooms_of(cs: Seq<CourseRequest>, room_count: int) -> Seq<u64> {
    Seq::new(cs.len(), |i: int| room_of(cs, room_count, room_key(cs[i])) as u64)
}


proof fn lemma_walk_shape(sks: Seq<u64>, start: int, end: int)
    requires
        start <= end,
    ensures
        walk_slots(sks, start, end).0 >= start,
        walk_slots(sks, start, end).1.len() == sks.len(),
        forall|q: int| 0 <= q < sks.len() ==> {
            let s = #[trigger] walk_slots(sks, start, end).1[q];
            s.1 == s.0 + 40 * sks[q] && s.0 >= start && (s.1 <= end || s.0 == start)
        },
    decreases sks.len(),
{
    if sks.len() > 0 {
        let p = sks.drop_last();
        lemma_walk_shape(p, start, end);
        assert forall|q: int| 0 <= q < sks.len() implies {
            let s = #[trigger] walk_slots(sks, start, end).1[q];
            s.1 == s.0 + 40 * sks[q] && s.0 >= start && (s.1 <= end || s.0 == start)
        } by {
            if q < sks.len() - 1 {
                assert(walk_slots(sks, start, end).1[q] == walk_slots(p, start, end).1[q]);
                assert(sks[q] == p[q]);
            }
        }
    }
}

/// Every decoded section lasts `40 * sks` minutes and starts inside its
/// session's window; it ends inside the window unless it was wrapped to the
/// window's start.
pub proof fn lemma_slots_within_window(cs: Seq<CourseRequest>, pos: Seq<i64>, rooms: Seq<u64>, r: Seq<OptimizedCourse>)
    requires
        decodes_to(cs, pos, rooms, r),
        cs.len() <= usize::MAX,
    ensures
        forall|i: int| 0 <= i < r.len() ==> {
            let w = session_window((#[trigger] r[i]).id_waktu);
            &&& r[i].jam_akhir == r[i].jam_mulai + 40 * r[i].sks
            &&& r[i].jam_mulai >= w.0
            &&& (r[i].jam_akhir <= w.1 || r[i].jam_mulai == w.0)
        },
{
    let m = r.len() as int;
    assert forall|i: int| 0 <= i < r.len() implies {
        let w = session_window((#[trigger] r[i]).id_waktu);
        &&& r[i].jam_akhir == r[i].jam_mulai + 40 * r[i].sks
        &&& r[i].jam_mulai >= w.0
        &&& (r[i].jam_akhir <= w.1 || r[i].jam_mulai == w.0)
    } by {
        let hari = days_of(r);
        let ord = time_order(cs, pos, hari, m, i);
        let w = session_window(cs[i].id_waktu);
        assert(time_decoded(cs, pos, hari, m, i, r[i].jam_mulai, r[i].jam_akhir));
        let q = choose|q: int| 0 <= q < ord.len() && (#[trigger] ord[q]).1 == i
            && r[i].jam_mulai as int == walk_slots(entry_loads(cs, ord), w.0, w.1).1[q].0
            && r[i].jam_akhir as int == walk_slots(entry_loads(cs, ord), w.0, w.1).1[q].1;
        lemma_walk_shape(entry_loads(cs, ord), w.0, w.1);
        assert(entry_loads(cs, ord)[q] == cs[i].sks);
        assert(carries(r[i], cs[i], rooms[i]));
    }
}

/// Rooms do not depend on the position: decoding two positions of the same
/// sections gives every section the same room, and sections of one room key
/// share it.
pub proof fn lemma_rooms_ignore_position(
    cs: Seq<CourseRequest>,
    room_count: int,
    pos1: Seq<i64>,
    pos2: Seq<i64>,
    r1: Seq<OptimizedCourse>,
    r2: Seq<OptimizedCourse>,
)
    requires
        decodes_to(cs, pos1, rooms_of(cs, room_count), r1),
        decodes_to(cs, pos2, rooms_of(cs, room_count), r2),
    ensures
        forall|i: int, j: int| 0 <= i < r1.len() && 0 <= j < r2.len() && room_key(cs[i]) == room_key(cs[j])
            ==> (#[trigger] r1[i]).ruangan == (#[trigger] r2[j]).ruangan,
{
    assert forall|i: int, j: int| 0 <= i < r1.len() && 0 <= j < r2.len() && room_key(cs[i]) == room_key(cs[j])
        implies (#[trigger] r1[i]).ruangan == (#[trigger] r2[j]).ruangan by {
        assert(carries(r1[i], cs[i], rooms_of(cs, room_count)[i]));
        assert(carries(r2[j], cs[j], rooms_of(cs, room_count)[j]));
    }
}


/// No two entries point at the same section.
pub open spec fn distinct_ids(s: Seq<Entry>) -> bool {
    forall|a: int, b: int| 0 <= a < s.len() && 0 <= b < s.len() && a != b ==> (#[trigger] s[a]).1 != (#[trigger] s[b]).1
}

proof fn lemma_insert_distinct(t: Seq<Entry>, x: Entry)
    requires
        distinct_ids(t),
        forall|k: int| 0 <= k < t.len() ==> (#[trigger] t[k]).1 != x.1,
    ensures
        distinct_ids(insert_entry(t, x)),
    decreases t.len(),
{
    lemma_insert_contains(t, x);
    if t.len() > 0 && !entry_lt(x, t[0]) {
        let u = t.drop_first();
        assert forall|k: int| 0 <= k < u.len() implies (#[trigger] u[k]).1 != x.1 by {
            assert(u[k] == t[k + 1]);
        }
        assert(distinct_ids(u)) by {
            assert forall|a: int, b: int| 0 <= a < u.len() && 0 <= b < u.len() && a != b
                implies (#[trigger] u[a]).1 != (#[trigger] u[b]).1 by {
                assert(u[a] == t[a + 1] && u[b] == t[b + 1]);
            }
        }
        lemma_insert_distinct(u, x);
        lemma_insert_contains(u, x);
        let rest = insert_entry(u, x);
        let r = insert_entry(t, x);
        assert(r == seq![t[0]] + rest);
        assert forall|a: int, b: int| 0 <= a < r.len() && 0 <= b < r.len() && a != b
            implies (#[trigger] r[a]).1 != (#[trigger] r[b]).1 by {
            if a == 0 || b == 0 {
                let c = if a == 0 { b } else { a };
                assert(r[c] == rest[c - 1]);
                assert(rest.contains(rest[c - 1]));
                if rest[c - 1] != x {
                    assert(u.contains(rest[c - 1]));
                    let k = choose|k: int| 0 <= k < u.len() && u[k] == rest[c - 1];
                    assert(t[k + 1] == u[k]);
                }
            } else {
                assert(r[a] == rest[a - 1] && r[b] == rest[b - 1]);
            }
        }
    } else if t.len() > 0 {
        let r = insert_entry(t, x);
        assert(r == seq![x] + t);
        assert forall|a: int, b: int| 0 <= a < r.len() && 0 <= b < r.len() && a != b
            implies (#[trigger] r[a]).1 != (#[trigger] r[b]).1 by {
            if a > 0 {
                assert(r[a] == t[a - 1]);
            }
            if b > 0 {
                assert(r[b] == t[b - 1]);
            }
        }
    }
}

proof fn lemma_sort_distinct(s: Seq<Entry>)
    requires
        distinct_ids(s),
    ensures
        distinct_ids(sort_entries(s)),
    decreases s.len(),
{
    if s.len() > 0 {
        let p = s.drop_last();
        assert(distinct_ids(p)) by {
            assert forall|a: int, b: int| 0 <= a < p.len() && 0 <= b < p.len() && a != b
                implies (#[trigger] p[a]).1 != (#[trigger] p[b]).1 by {
                assert(p[a] == s[a] && p[b] == s[b]);
            }
        }
        lemma_sort_distinct(p);
        lemma_sort_contains(p);
        let sp = sort_entries(p);
        assert forall|k: int| 0 <= k < sp.len() implies (#[trigger] sp[k]).1 != s.last().1 by {
            assert(sp.contains(sp[k]));
            assert(p.contains(sp[k]));
            let j = choose|j: int| 0 <= j < p.len() && p[j] == sp[k];
            assert(s[j] == p[j]);
        }
        lemma_insert_distinct(sp, s.last());
    }
}

proof fn lemma_group_entries_distinct(cs: Seq<CourseRequest>, pos: Seq<i64>, k: GroupKey, n: int)
    requires
        0 <= n <= cs.len(),
        n <= usize::MAX,
        2 * n <= pos.len(),
    ensures
        distinct_ids(group_entries(cs, pos, k, n)),
    decreases n,
{
    if n > 0 {
        lemma_group_entries_distinct(cs, pos, k, n - 1);
        lemma_group_entries(cs, pos, k, n - 1);
        let prev = group_entries(cs, pos, k, n - 1);
        let cur = group_entries(cs, pos, k, n);
        assert forall|a: int, b: int| 0 <= a < cur.len() && 0 <= b < cur.len() && a != b
            implies (#[trigger] cur[a]).1 != (#[trigger] cur[b]).1 by {
            if a < prev.len() {
                assert(cur[a] == prev[a]);
                assert(prev.contains(prev[a]));
            }
            if b < prev.len() {
                assert(cur[b] == prev[b]);
                assert(prev.contains(prev[b]));
            }
        }
    }
}

proof fn lemma_day_group_entries_distinct(cs: Seq<CourseRequest>, pos: Seq<i64>, hari: Seq<u64>, k: GroupKey, d: u64, n: int)
    requires
        0 <= n <= cs.len(),
        n <= usize::MAX,
        n <= hari.len(),
        2 * n <= pos.len(),
    ensures
        distinct_ids(day_group_entries(cs, pos, hari, k, d, n)),
    decreases n,
{
    if n > 0 {
        lemma_day_group_entries_distinct(cs, pos, hari, k, d, n - 1);
        lemma_day_group_entries(cs, pos, hari, k, d, n - 1);
        let prev = day_group_entries(cs, pos, hari, k, d, n - 1);
        let cur = day_group_entries(cs, pos, hari, k, d, n);
        assert forall|a: int, b: int| 0 <= a < cur.len() && 0 <= b < cur.len() && a != b
            implies (#[trigger] cur[a]).1 != (#[trigger] cur[b]).1 by {
            if a < prev.len() {
                assert(cur[a] == prev[a]);
                assert(prev.contains(prev[a]));
            }
            if b < prev.len() {
                assert(cur[b] == prev[b]);
                assert(prev.contains(prev[b]));
            }
        }
    }
}

/// Decoding is a function: the same position, sections and rooms always give
/// the same timetable, section for section.
pub proof fn lemma_decode_deterministic(
    cs: Seq<CourseRequest>,
    pos: Seq<i64>,
    rooms: Seq<u64>,
    r1: Seq<OptimizedCourse>,
    r2: Seq<OptimizedCourse>,
)
    requires
        cs.len() <= usize::MAX,
        decodes_to(cs, pos, rooms, r1),
        decodes_to(cs, pos, rooms, r2),
    ensures
        r1 == r2,
{
    let m = r1.len() as int;
    assert forall|i: int| 0 <= i < m implies (#[trigger] r1[i]).hari == r2[i].hari by {
        let ord = day_order(cs, pos, m, i);
        lemma_group_entries_distinct(cs, pos, group_key(cs[i]), m);
        lemma_sort_distinct(group_entries(cs, pos, group_key(cs[i]), m));
        assert(day_decoded(cs, pos, m, i, r1[i].hari));
        assert(day_decoded(cs, pos, m, i, r2[i].hari));
        let loads = packed_days(entry_loads(cs, ord), group_capacity(ord.len() as int));
        let q1 = choose|q: int| 0 <= q < ord.len() && (#[trigger] ord[q]).1 == i && r1[i].hari == loads[q];
        let q2 = choose|q: int| 0 <= q < ord.len() && (#[trigger] ord[q]).1 == i && r2[i].hari == loads[q];
        assert(q1 == q2);
    }
    assert(days_of(r1) =~= days_of(r2));
    let hari = days_of(r1);
    assert forall|i: int| 0 <= i < m implies #[trigger] r1[i] == r2[i] by {
        let ord = time_order(cs, pos, hari, m, i);
        lemma_day_group_entries_distinct(cs, pos, hari, group_key(cs[i]), hari[i], m);
        lemma_sort_distinct(day_group_entries(cs, pos, hari, group_key(cs[i]), hari[i], m));
        assert(time_decoded(cs, pos, hari, m, i, r1[i].jam_mulai, r1[i].jam_akhir));
        assert(time_decoded(cs, pos, hari, m, i, r2[i].jam_mulai, r2[i].jam_akhir));
        let w = session_window(cs[i].id_waktu);
        let sl = walk_slots(entry_loads(cs, ord), w.0, w.1).1;
        let q1 = choose|q: int| 0 <= q < ord.len() && (#[trigger] ord[q]).1 == i
            && r1[i].jam_mulai as int == sl[q].0 && r1[i].jam_akhir as int == sl[q].1;
        let q2 = choose|q: int| 0 <= q < ord.len() && (#[trigger] ord[q]).1 == i
            && r2[i].jam_mulai as int == sl[q].0 && r2[i].jam_akhir as int == sl[q].1;
        assert(q1 == q2);
        assert(carries(r1[i], cs[i], rooms[i]));
        assert(carries(r2[i], cs[i], rooms[i]));
        assert(r1[i].hari == r2[i].hari);
    }
    assert(r1 =~= r2);
}

} // verus!
