//! The heap of the virtual machine and its mark-and-sweep garbage collector.
//!
//! Objects live in numbered slots. A slot that a collection frees is kept
//! on a free list and handed to the next new object. Strings are
//! interned: the string table maps the characters of every interned string
//! to the slot of its object.
use vstd::prelude::*;

use crate::collections::{StringTable, ValueTable, string_table_contents, empty_string_map, value_table_contents};
use crate::object::{HeapObject, ObjectData, ObjectString, children, points_to};
use crate::value::{Value, OBJECT_PAYLOAD_LIMIT};

verus! {

broadcast use vstd::seq_lib::group_seq_properties;

/// The heap never has more slots than an object value can address.
pub const MAX_OBJECTS: usize = 0x7fffffff;

pub struct Gc {
    pub strings: StringTable,
    pub objects: Vec<Option<HeapObject>>,
    pub gray_objects: Vec<usize>,
    pub free: Vec<usize>,
}

/// The slot a new object goes to: the last slot on the free list, or a new
/// slot at the end when the list is empty.
pub open spec fn slot_for(objs: Seq<Option<HeapObject>>, free: Seq<usize>) -> int {
    if free.len() > 0 {
        free.last() as int
    } else {
        objs.len() as int
    }
}

/// The heap after a new, unmarked object with `data` goes to slot `idx`.
pub open spec fn put(objs: Seq<Option<HeapObject>>, idx: int, data: ObjectData) -> Seq<Option<HeapObject>> {
    let h = Some(HeapObject { is_marked: false, data });
    if idx < objs.len() {
        objs.update(idx, h)
    } else {
        objs.push(h)
    }
}

/// Every live string object is the one the table names for its
/// characters: no two string objects have the same characters.
pub open spec fn interned(objs: Seq<Option<HeapObject>>, strings: StringTable) -> bool {
    forall|i: int|
        live(objs, i) && (#[trigger] objs[i])->Some_0.data is String ==> {
            let k = objs[i]->Some_0.data->String_0.value@;
            &&& string_table_contents(strings).contains_key(k)
            &&& string_table_contents(strings)[k] == i
        }
}

/// Every slot on the free list is an empty slot of the heap, and none is on
/// it twice.
pub open spec fn free_wf(objs: Seq<Option<HeapObject>>, free: Seq<usize>) -> bool {
    &&& free.no_duplicates()
    &&& forall|q: int| 0 <= q < free.len() ==> (#[trigger] free[q]) < objs.len() && objs[free[q] as int] is None
}

/// Slot `i` holds an object.
pub open spec fn live(objs: Seq<Option<HeapObject>>, i: int) -> bool {
    0 <= i < objs.len() && objs[i] is Some
}

/// Slot `i` holds an object that the collector has reached.
pub open spec fn marked(objs: Seq<Option<HeapObject>>, i: int) -> bool {
    live(objs, i) && objs[i]->Some_0.is_marked
}

/// The object in slot `i` refers to the object in slot `j`.
pub open spec fn edge(objs: Seq<Option<HeapObject>>, i: int, j: int) -> bool {
    live(objs, i) && live(objs, j) && points_to(objs[i]->Some_0.data, j as usize)
}

/// Every marked object that is not waiting in `gray` has all its children
/// marked.
pub open spec fn closed_except(objs: Seq<Option<HeapObject>>, gray: Seq<usize>) -> bool {
    forall|i: int, j: int|
        #[trigger] edge(objs, i, j) && marked(objs, i) && !gray.contains(i as usize) ==> marked(
            objs,
            j,
        )
}

/// The two heaps have the same objects in the same slots; only marks may
/// differ.
pub open spec fn same_objects(a: Seq<Option<HeapObject>>, b: Seq<Option<HeapObject>>) -> bool {
    &&& a.len() == b.len()
    &&& forall|i: int| 0 <= i < a.len() ==> (#[trigger] a[i] is Some <==> b[i] is Some)
    &&& forall|i: int| live(a, i) ==> (#[trigger] a[i])->Some_0.data == b[i]->Some_0.data
}

/// The objects reachable from `roots` in at most `n` steps.
pub open spec fn reach_n(objs: Seq<Option<HeapObject>>, roots: Set<int>, n: nat) -> Set<int>
    decreases n,
{
    if n == 0 {
        Set::new(|j: int| live(objs, j) && roots.contains(j))
    } else {
        let p = reach_n(objs, roots, (n - 1) as nat);
        Set::new(|j: int| p.contains(j) || exists|i: int| p.contains(i) && edge(objs, i, j))
    }
}

/// The object in slot `j` is reachable from `roots`.
pub open spec fn reachable(objs: Seq<Option<HeapObject>>, roots: Set<int>, j: int) -> bool {
    exists|n: nat| #[trigger] reach_n(objs, roots, n).contains(j)
}

/// The number of objects the collector has not reached yet.
pub open spec fn unmarked_count(objs: Seq<Option<HeapObject>>) -> nat
    decreases objs.len(),
{
    if objs.len() == 0 {
        0
    } else {
        unmarked_count(objs.drop_last()) + (if objs.last() is Some && !objs.last()->Some_0.is_marked {
            1nat
        } else {
            0nat
        })
    }
}

/// Marking one unmarked object lowers the count by one.
proof fn lemma_mark_one(objs: Seq<Option<HeapObject>>, i: int, h: HeapObject)
    requires
        live(objs, i),
        !objs[i]->Some_0.is_marked,
        h.is_marked,
    ensures
        unmarked_count(objs.update(i, Some(h))) + 1 == unmarked_count(objs),
    decreases objs.len(),
{
    let up = objs.update(i, Some(h));
    if i == objs.len() - 1 {
        assert(up.drop_last() =~= objs.drop_last());
    } else {
        lemma_mark_one(objs.drop_last(), i, h);
        assert(up.drop_last() =~= objs.drop_last().update(i, Some(h)));
    }
}

/// A set of marked objects that holds the live roots and is closed under
/// edges holds everything reachable from the roots.
pub proof fn lemma_closed_holds_reachable(
    objs: Seq<Option<HeapObject>>,
    roots: Set<int>,
    n: nat,
)
    requires
        forall|r: int| #[trigger] roots.contains(r) && live(objs, r) ==> marked(objs, r),
        closed_except(objs, Seq::empty()),
    ensures
        forall|j: int| #[trigger] reach_n(objs, roots, n).contains(j) ==> marked(objs, j),
    decreases n,
{
    if n > 0 {
        lemma_closed_holds_reachable(objs, roots, (n - 1) as nat);
        let p = reach_n(objs, roots, (n - 1) as nat);
        assert forall|j: int| #[trigger] reach_n(objs, roots, n).contains(j) implies marked(objs, j) by {
            if !p.contains(j) {
                let i = choose|i: int| p.contains(i) && edge(objs, i, j);
                assert(marked(objs, i));
                assert(!Seq::<usize>::empty().contains(i as usize));
            }
        }
    } else {
        assert forall|j: int| #[trigger] reach_n(objs, roots, n).contains(j) implies marked(objs, j) by {
            assert(roots.contains(j));
        }
    }
}

/// Heaps with the same objects have the same reachable sets.
pub proof fn lemma_reach_same(
    a: Seq<Option<HeapObject>>,
    b: Seq<Option<HeapObject>>,
    roots: Set<int>,
    n: nat,
)
    requires
        same_objects(a, b),
    ensures
        reach_n(a, roots, n) == reach_n(b, roots, n),
    decreases n,
{
    if n == 0 {
        assert(reach_n(a, roots, n) =~= reach_n(b, roots, n));
    } else {
        lemma_reach_same(a, b, roots, (n - 1) as nat);
        let p = reach_n(a, roots, (n - 1) as nat);
        assert forall|i: int, j: int| edge(a, i, j) <==> edge(b, i, j) by {
            if live(a, i) {
                assert(a[i]->Some_0.data == b[i]->Some_0.data);
            }
            if 0 <= i < a.len() {
                assert(a[i] is Some <==> b[i] is Some);
            }
            if 0 <= j < a.len() {
                assert(a[j] is Some <==> b[j] is Some);
            }
        }
        assert(reach_n(a, roots, n) =~= reach_n(b, roots, n));
    }
}

/// The slots of the marked objects.
pub open spec fn marked_set(objs: Seq<Option<HeapObject>>) -> Set<int> {
    Set::new(|i: int| marked(objs, i))
}

/// A live root is reachable.
pub proof fn lemma_reachable_root(objs: Seq<Option<HeapObject>>, roots: Set<int>, i: int)
    requires
        live(objs, i),
        roots.contains(i),
    ensures
        reachable(objs, roots, i),
{
    assert(reach_n(objs, roots, 0).contains(i));
}

/// What a reachable object refers to is reachable.
pub proof fn lemma_reachable_step(objs: Seq<Option<HeapObject>>, roots: Set<int>, i: int, j: int)
    requires
        reachable(objs, roots, i),
        edge(objs, i, j),
    ensures
        reachable(objs, roots, j),
{
    let n = choose|n: nat| #[trigger] reach_n(objs, roots, n).contains(i);
    assert(reach_n(objs, roots, n + 1).contains(j));
}

/// The slots that a list of roots names.
pub open spec fn roots_set(roots: Seq<usize>) -> Set<int> {
    Set::new(|j: int| exists|q: int| 0 <= q < roots.len() && roots[q] as int == j)
}

pub proof fn lemma_same_objects_trans(
    a: Seq<Option<HeapObject>>,
    b: Seq<Option<HeapObject>>,
    c: Seq<Option<HeapObject>>,
)
    requires
        same_objects(a, b),
        same_objects(b, c),
    ensures
        same_objects(a, c),
{
    assert forall|i: int| 0 <= i < a.len() implies (#[trigger] a[i] is Some <==> c[i] is Some) by {
        assert(a[i] is Some <==> b[i] is Some);
        assert(b[i] is Some <==> c[i] is Some);
    }
    assert forall|i: int| live(a, i) implies (#[trigger] a[i])->Some_0.data == c[i]->Some_0.data by {
        assert(b[i] is Some);
        assert(live(b, i));
    }
}

impl Gc {
    /// The heap is well formed and every string object is interned.
    pub open spec fn wf(&self) -> bool {
        &&& self.heap_wf()
        &&& interned(self.objects@, self.strings)
    }

    /// Every interned string is a live string object with those characters;
    /// nothing is marked and nothing waits to be traced; the free list names
    /// empty slots.
    pub open spec fn heap_wf(&self) -> bool {
        &&& self.objects@.len() <= MAX_OBJECTS
        &&& self.strings_wf()
        &&& self.gray_objects@.len() == 0
        &&& forall|i: int| 0 <= i < self.objects@.len() ==> !marked(self.objects@, i)
        &&& free_wf(self.objects@, self.free@)
    }

    /// A new object can be placed: a slot is free or the heap can grow.
    pub open spec fn room(&self) -> bool {
        self.objects@.len() < MAX_OBJECTS || self.free@.len() > 0
    }

    /// The slot the next new object goes to.
    pub open spec fn next_slot(&self) -> int {
        slot_for(self.objects@, self.free@)
    }

    pub open spec fn strings_wf(&self) -> bool {
        forall|k: Seq<char>|
            #[trigger] string_table_contents(self.strings).contains_key(k) ==> {
                let idx = string_table_contents(self.strings)[k] as int;
                &&& live(self.objects@, idx)
                &&& self.objects@[idx]->Some_0.data matches ObjectData::String(s) && s.value@ == k
            }
    }

    pub open spec fn is_string(&self, idx: int, k: Seq<char>) -> bool {
        &&& live(self.objects@, idx)
        &&& self.objects@[idx]->Some_0.data matches ObjectData::String(s) && s.value@ == k
    }

    pub fn new() -> (gc: Gc)
        ensures
            gc.wf(),
            gc.objects@.len() == 0,
            string_table_contents(gc.strings) == empty_string_map(),
    {
        Gc { strings: StringTable::new(), objects: Vec::new(), gray_objects: Vec::new(), free: Vec::new() }
    }

    /// There is room for one more object.
    pub fn has_room(&self) -> (r: bool)
        ensures
            r == self.room(),
    {
        self.objects.len() < MAX_OBJECTS || self.free.len() > 0
    }

    /// Puts a new, unmarked object in the last slot of the free list, or in
    /// a new slot at the end when no slot is free, and returns the slot.
    pub fn alloc_object(&mut self, data: ObjectData) -> (idx: usize)
        requires
            old(self).wf(),
            old(self).room(),
        ensures
            final(self).heap_wf(),
            !(data is String) ==> final(self).wf(),
            idx == old(self).next_slot(),
            !live(old(self).objects@, idx as int),
            idx < final(self).objects@.len(),
            (idx as u64) < OBJECT_PAYLOAD_LIMIT,
            final(self).objects@ == put(old(self).objects@, idx as int, data),
            final(self).free@ == (if old(self).free@.len() > 0 { old(self).free@.drop_last() } else { old(self).free@ }),
            final(self).strings == old(self).strings,
    {
        let h = HeapObject { is_marked: false, data };
        let idx = match self.free.pop() {
            Some(f) => {
                proof {
                    assert(old(self).free@[old(self).free@.len() - 1] == f);
                }
                self.objects.set(f, Some(h));
                f
            },
            None => {
                let idx = self.objects.len();
                self.objects.push(Some(h));
                idx
            },
        };
        proof {
            assert(self.objects@ =~= put(old(self).objects@, idx as int, data));
            assert forall|k: Seq<char>|
                #[trigger] string_table_contents(self.strings).contains_key(k) implies {
                    let i = string_table_contents(self.strings)[k] as int;
                    &&& live(self.objects@, i)
                    &&& self.objects@[i]->Some_0.data matches ObjectData::String(s) && s.value@ == k
                } by {
                let i = string_table_contents(old(self).strings)[k] as int;
                assert(live(old(self).objects@, i));
                assert(old(self).objects@[i] == self.objects@[i]);
            }
            assert forall|i: int| 0 <= i < self.objects@.len() implies !marked(self.objects@, i) by {
                if i != idx {
                    assert(old(self).objects@[i] == self.objects@[i]);
                    assert(!marked(old(self).objects@, i));
                }
            }
            let of = old(self).free@;
            assert forall|q: int| 0 <= q < self.free@.len() implies (#[trigger] self.free@[q]) < self.objects@.len()
                && self.objects@[self.free@[q] as int] is None by {
                assert(self.free@[q] == of[q]);
                assert(of[q] != of[of.len() - 1]);
            }
        }
        proof {
            if !(data is String) {
                assert forall|i: int|
                    live(self.objects@, i) && (#[trigger] self.objects@[i])->Some_0.data is String implies {
                        let k = self.objects@[i]->Some_0.data->String_0.value@;
                        &&& string_table_contents(self.strings).contains_key(k)
                        &&& string_table_contents(self.strings)[k] == i
                    } by {
                    assert(i != idx);
                    assert(old(self).objects@[i] == self.objects@[i]);
                }
            }
        }
        idx
    }

    /// The slot of the interned string with the characters of `s`, interning
    /// it first when it is new.
    pub fn alloc_str(&mut self, s: &str) -> (idx: usize)
        requires
            old(self).wf(),
            old(self).room(),
        ensures
            final(self).wf(),
            final(self).is_string(idx as int, s@),
            (idx as u64) < OBJECT_PAYLOAD_LIMIT,
            string_table_contents(final(self).strings).contains_key(s@),
            string_table_contents(final(self).strings)[s@] == idx,
            string_table_contents(old(self).strings).contains_key(s@) ==> {
                &&& idx == string_table_contents(old(self).strings)[s@]
                &&& final(self).objects@ == old(self).objects@
                &&& string_table_contents(final(self).strings) == string_table_contents(old(self).strings)
            },
            !string_table_contents(old(self).strings).contains_key(s@) ==> {
                &&& idx == old(self).next_slot()
                &&& !live(old(self).objects@, idx as int)
                &&& final(self).objects@.len() == (if idx < old(self).objects@.len() { old(self).objects@.len() } else { old(self).objects@.len() + 1 })
                &&& forall|i: int| 0 <= i < old(self).objects@.len() && i != idx ==> final(self).objects@[i] == old(self).objects@[i]
                &&& string_table_contents(final(self).strings) == string_table_contents(old(self).strings).insert(s@, idx)
            },
    {
        match self.strings.get(s) {
            Some(idx) => {
                proof {
                    assert(string_table_contents(self.strings).contains_key(s@));
                }
                idx
            },
            None => {
                let idx = self.alloc_object(ObjectData::String(ObjectString::new(String::from_str(s))));
                self.strings.insert(String::from_str(s), idx);
                proof {
                    assert forall|k: Seq<char>|
                        #[trigger] string_table_contents(self.strings).contains_key(k) implies {
                            let i = string_table_contents(self.strings)[k] as int;
                            &&& live(self.objects@, i)
                            &&& self.objects@[i]->Some_0.data matches ObjectData::String(st) && st.value@ == k
                        } by {
                        if k != s@ {
                            let i = string_table_contents(old(self).strings)[k] as int;
                            assert(live(old(self).objects@, i));
                            assert(old(self).objects@[i] == self.objects@[i]);
                        }
                    }
                    assert forall|i: int|
                        live(self.objects@, i) && (#[trigger] self.objects@[i])->Some_0.data is String implies {
                            let k = self.objects@[i]->Some_0.data->String_0.value@;
                            &&& string_table_contents(self.strings).contains_key(k)
                            &&& string_table_contents(self.strings)[k] == i
                        } by {
                        if i != idx {
                            assert(old(self).objects@[i] == self.objects@[i]);
                            let k = self.objects@[i]->Some_0.data->String_0.value@;
                            assert(string_table_contents(old(self).strings).contains_key(k));
                            assert(k != s@);
                        }
                    }
                }
                idx
            },
        }
    }

    /// The characters of the string object in slot `idx`.
    pub fn string_at(&self, idx: usize) -> (r: Option<&String>)
        ensures
            r matches Some(s) ==> self.is_string(idx as int, s@),
            (idx < self.objects@.len() && (self.objects@[idx as int] matches Some(h) && h.data is String)) ==> r is Some,
    {
        if idx < self.objects.len() {
            match &self.objects[idx] {
                Some(h) => match &h.data {
                    ObjectData::String(s) => Some(&s.value),
                    _ => None,
                },
                None => None,
            }
        } else {
            None
        }
    }

    /// Marks the object in slot `idx`, if it is live and unmarked, and queues
    /// it to have its children traced.
    pub fn mark_object(&mut self, idx: usize)
        ensures
            same_objects(old(self).objects@, final(self).objects@),
            final(self).strings == old(self).strings,
            forall|i: int| #![trigger final(self).objects@[i]]
                marked(final(self).objects@, i) <==> (marked(old(self).objects@, i) || (i == idx && live(old(self).objects@, i))),
            live(old(self).objects@, idx as int) && !marked(old(self).objects@, idx as int) ==> {
                &&& final(self).gray_objects@ == old(self).gray_objects@.push(idx)
                &&& unmarked_count(final(self).objects@) + 1 == unmarked_count(old(self).objects@)
            },
            !(live(old(self).objects@, idx as int) && !marked(old(self).objects@, idx as int)) ==> {
                &&& final(self).gray_objects@ == old(self).gray_objects@
                &&& final(self).objects@ == old(self).objects@
            },
    {
        if idx < self.objects.len() {
            let slot = self.objects[idx].take();
            match slot {
                Some(h) => {
                    if h.is_marked {
                        self.objects.set(idx, Some(h));
                        proof {
                            assert(self.objects@ =~= old(self).objects@);
                        }
                    } else {
                        let ghost old_h = h;
                        let h2 = HeapObject { is_marked: true, data: h.data };
                        proof {
                            lemma_mark_one(old(self).objects@, idx as int, h2);
                        }
                        self.objects.set(idx, Some(h2));
                        self.gray_objects.push(idx);
                        proof {
                            assert(self.objects@ =~= old(self).objects@.update(idx as int, Some(h2)));
                        }
                    }
                },
                None => {
                    proof {
                        assert(self.objects@ =~= old(self).objects@);
                    }
                },
            }
        }
    }

    /// Marks the children of every queued object until no object is queued:
    /// afterwards the marked objects hold every child of a marked object.
    pub fn trace(&mut self)
        requires
            forall|q: int| 0 <= q < old(self).gray_objects@.len() ==> marked(old(self).objects@, #[trigger] old(self).gray_objects@[q] as int),
            closed_except(old(self).objects@, old(self).gray_objects@),
            old(self).objects@.len() <= MAX_OBJECTS,
        ensures
            same_objects(old(self).objects@, final(self).objects@),
            final(self).strings == old(self).strings,
            final(self).gray_objects@.len() == 0,
            forall|i: int| marked(old(self).objects@, i) ==> #[trigger] marked(final(self).objects@, i),
            closed_except(final(self).objects@, Seq::empty()),
            forall|i: int| #[trigger] marked(final(self).objects@, i) ==> reachable(
                old(self).objects@,
                marked_set(old(self).objects@),
                i,
            ),
    {
        let ghost objs0 = old(self).objects@;
        proof {
            assert forall|i: int| #[trigger] marked(objs0, i) implies reachable(objs0, marked_set(objs0), i) by {
                lemma_reachable_root(objs0, marked_set(objs0), i);
            }
        }
        while self.gray_objects.len() > 0
            invariant
                objs0 == old(self).objects@,
                forall|i: int| #[trigger] marked(self.objects@, i) ==> reachable(objs0, marked_set(objs0), i),
                same_objects(old(self).objects@, self.objects@),
                self.objects@.len() <= MAX_OBJECTS,
                self.strings == old(self).strings,
                forall|i: int| marked(old(self).objects@, i) ==> #[trigger] marked(self.objects@, i),
                forall|q: int| 0 <= q < self.gray_objects@.len() ==> marked(self.objects@, #[trigger] self.gray_objects@[q] as int),
                closed_except(self.objects@, self.gray_objects@),
            decreases 2 * unmarked_count(self.objects@) + self.gray_objects@.len(),
        {
            let ghost measure = 2 * unmarked_count(self.objects@) + self.gray_objects@.len();
            let ghost gray_before = self.gray_objects@;
            let idx = self.gray_objects.pop().unwrap();
            proof {
                assert(gray_before =~= self.gray_objects@.push(idx));
                assert(marked(self.objects@, gray_before[gray_before.len() - 1] as int));
            }
            let kids = match &self.objects[idx] {
                Some(h) => children(&h.data),
                None => Vec::new(),
            };
            let ghost data = self.objects@[idx as int]->Some_0.data;
            let ghost objs_start = self.objects@;
            let n = kids.len();
            let mut k: usize = 0;
            while k < n
                invariant
                    n == kids@.len(),
                    k <= n,
                    idx < self.objects@.len(),
                    forall|j: usize| #[trigger] kids@.contains(j) <==> points_to(data, j),
                    same_objects(old(self).objects@, self.objects@),
                    same_objects(objs_start, self.objects@),
                    self.objects@.len() <= MAX_OBJECTS,
                    live(self.objects@, idx as int),
                    self.objects@[idx as int]->Some_0.data == data,
                    marked(self.objects@, idx as int),
                    self.strings == old(self).strings,
                    forall|i: int| marked(old(self).objects@, i) ==> #[trigger] marked(self.objects@, i),
                    forall|q: int| 0 <= q < self.gray_objects@.len() ==> marked(self.objects@, #[trigger] self.gray_objects@[q] as int),
                    closed_except(self.objects@, self.gray_objects@.push(idx)),
                    forall|q: int| 0 <= q < k && live(self.objects@, kids@[q] as int) ==> marked(self.objects@, #[trigger] kids@[q] as int),
                    2 * unmarked_count(self.objects@) + self.gray_objects@.len() < measure,
                    objs0 == old(self).objects@,
                    forall|i: int| #[trigger] marked(self.objects@, i) ==> reachable(objs0, marked_set(objs0), i),
                decreases n - k,
            {
                let child = kids[k];
                let ghost objs_before = self.objects@;
                let ghost gray_b = self.gray_objects@;
                self.mark_object(child);
                proof {
                    assert forall|i: int| #[trigger] marked(self.objects@, i) implies reachable(objs0, marked_set(objs0), i) by {
                        if !marked(objs_before, i) {
                            assert(i == child as int);
                            assert(kids@.contains(child));
                            assert(points_to(data, child));
                            assert(live(objs0, idx as int));
                            assert(objs0[idx as int]->Some_0.data == data);
                            assert(live(objs0, i));
                            assert(edge(objs0, idx as int, i));
                            assert(reachable(objs0, marked_set(objs0), idx as int));
                            lemma_reachable_step(objs0, marked_set(objs0), idx as int, i);
                        }
                    }
                    assert forall|i: int, j: int|
                        #[trigger] edge(self.objects@, i, j) && marked(self.objects@, i) && !self.gray_objects@.push(idx).contains(i as usize) implies marked(self.objects@, j) by {
                        assert(edge(objs_before, i, j));
                        if i == child as int && !marked(objs_before, i) {
                            assert(self.gray_objects@.contains(child));
                            assert(self.gray_objects@[self.gray_objects@.len() - 1] == child);
                            assert(self.gray_objects@.push(idx)[self.gray_objects@.len() - 1] == child);
                        } else {
                            assert(marked(objs_before, i));
                            if gray_b.push(idx).contains(i as usize) {
                                let q = choose|q: int| 0 <= q < gray_b.push(idx).len() && gray_b.push(idx)[q] == i as usize;
                                if q < gray_b.len() {
                                    assert(self.gray_objects@[q] == i as usize);
                                    assert(self.gray_objects@.push(idx)[q] == i as usize);
                                } else {
                                    assert(self.gray_objects@.push(idx)[self.gray_objects@.len() as int] == idx);
                                }
                            }
                            assert(marked(objs_before, j));
                        }
                    }
                    assert forall|q: int| 0 <= q < self.gray_objects@.len() implies marked(self.objects@, #[trigger] self.gray_objects@[q] as int) by {
                        if q < gray_b.len() {
                            assert(self.gray_objects@[q] == gray_b[q]);
                        }
                    }
                }
                k = k + 1;
            }
            proof {
                assert forall|i: int, j: int|
                    #[trigger] edge(self.objects@, i, j) && marked(self.objects@, i) && !self.gray_objects@.contains(i as usize) implies marked(self.objects@, j) by {
                    if i == idx as int {
                        assert(points_to(data, j as usize));
                        assert(kids@.contains(j as usize));
                        let q = choose|q: int| 0 <= q < kids@.len() && kids@[q] == j as usize;
                        assert(live(self.objects@, kids@[q] as int));
                    } else {
                        assert(!self.gray_objects@.push(idx).contains(i as usize));
                    }
                }
            }
        }
    }

    /// Frees every unmarked object and unmarks the rest; the string table
    /// forgets the strings it freed, and the free list becomes the list of
    /// the empty slots.
    pub fn sweep(&mut self)
        requires
            old(self).strings_wf(),
            interned(old(self).objects@, old(self).strings),
            old(self).gray_objects@.len() == 0,
            old(self).objects@.len() <= MAX_OBJECTS,
        ensures
            final(self).wf(),
            final(self).objects@.len() == old(self).objects@.len(),
            forall|i: int| 0 <= i < old(self).objects@.len() ==> #[trigger] final(self).objects@[i] == (if marked(old(self).objects@, i) {
                Some(HeapObject { is_marked: false, data: old(self).objects@[i]->Some_0.data })
            } else {
                None
            }),
            forall|k: Seq<char>|
                #[trigger] string_table_contents(final(self).strings).contains_key(k) <==> (string_table_contents(
                    old(self).strings,
                ).contains_key(k) && marked(old(self).objects@, string_table_contents(old(self).strings)[k] as int)),
            forall|k: Seq<char>|
                #[trigger] string_table_contents(final(self).strings).contains_key(k) ==> string_table_contents(
                    final(self).strings,
                )[k] == string_table_contents(old(self).strings)[k],
            forall|j: int| 0 <= j < final(self).objects@.len() ==> (#[trigger] final(self).objects@[j] is None
                <==> final(self).free@.contains(j as usize)),
    {
        let n = self.objects.len();
        let mut i: usize = 0;
        self.free = Vec::new();
        while i < n
            invariant
                self.free@.no_duplicates(),
                forall|q: int| 0 <= q < self.free@.len() ==> (#[trigger] self.free@[q]) < i && self.objects@[self.free@[q] as int] is None,
                forall|j: int| 0 <= j < i ==> (#[trigger] self.objects@[j] is None <==> self.free@.contains(j as usize)),
                n == self.objects@.len(),
                n == old(self).objects@.len(),
                n <= MAX_OBJECTS,
                i <= n,
                self.gray_objects@.len() == 0,
                forall|q: int| 0 <= q < i ==> #[trigger] self.objects@[q] == (if marked(old(self).objects@, q) {
                    Some(HeapObject { is_marked: false, data: old(self).objects@[q]->Some_0.data })
                } else {
                    None
                }),
                forall|q: int| i <= q < n ==> #[trigger] self.objects@[q] == old(self).objects@[q],
                forall|k: Seq<char>|
                    #[trigger] string_table_contents(self.strings).contains_key(k) ==> {
                        let idx = string_table_contents(self.strings)[k] as int;
                        &&& string_table_contents(old(self).strings).contains_key(k)
                        &&& string_table_contents(old(self).strings)[k] == string_table_contents(self.strings)[k]
                        &&& (idx < i ==> marked(old(self).objects@, idx))
                    },
                forall|k: Seq<char>|
                    #[trigger] string_table_contents(old(self).strings).contains_key(k) && (string_table_contents(
                        old(self).strings,
                    )[k] >= i || marked(old(self).objects@, string_table_contents(old(self).strings)[k] as int))
                        ==> string_table_contents(self.strings).contains_key(k),
                old(self).strings_wf(),
            decreases n - i,
        {
            let slot = self.objects[i].take();
            match slot {
                Some(h) => {
                    if h.is_marked {
                        self.objects.set(i, Some(HeapObject { is_marked: false, data: h.data }));
                    } else {
                        match &h.data {
                            ObjectData::String(s) => {
                                match self.strings.get(s.value.as_str()) {
                                    Some(j) => {
                                        if j == i {
                                            self.strings.remove(s.value.as_str());
                                        }
                                    },
                                    None => {},
                                }
                            },
                            _ => {},
                        }
                        proof {
                            assert forall|k: Seq<char>|
                                #[trigger] string_table_contents(self.strings).contains_key(k) implies string_table_contents(self.strings)[k] != i by {
                                let idx = string_table_contents(old(self).strings)[k] as int;
                                if idx == i {
                                    assert(old(self).objects@[idx] == Some(h));
                                }
                            }
                        }
                    }
                },
                None => {
                    proof {
                        assert forall|k: Seq<char>|
                            #[trigger] string_table_contents(self.strings).contains_key(k) implies string_table_contents(self.strings)[k] != i by {
                            let idx = string_table_contents(old(self).strings)[k] as int;
                            assert(live(old(self).objects@, idx));
                        }
                    }
                },
            }
            let ghost before_free = self.free@;
            let ghost before_objs = self.objects@;
            if self.objects[i].is_none() {
                self.free.push(i);
                proof {
                    assert forall|q: int| 0 <= q < before_free.len() implies before_free[q] != i by {}
                    assert(!before_free.contains(i));
                }
            }
            proof {
                assert forall|q: int| 0 <= q < self.free@.len() implies (#[trigger] self.free@[q]) < i + 1
                    && self.objects@[self.free@[q] as int] is None by {
                    if q < before_free.len() {
                        assert(self.free@[q] == before_free[q]);
                    }
                }
                assert forall|j: int| 0 <= j < i + 1 implies (#[trigger] self.objects@[j] is None <==> self.free@.contains(j as usize)) by {
                    if j < i {
                        assert(self.objects@[j] == before_objs[j]);
                        if before_free.contains(j as usize) {
                            let q = choose|q: int| 0 <= q < before_free.len() && before_free[q] == j as usize;
                            assert(self.free@[q] == j as usize);
                        }
                        if self.free@.contains(j as usize) {
                            let q = choose|q: int| 0 <= q < self.free@.len() && self.free@[q] == j as usize;
                            if q < before_free.len() {
                                assert(before_free[q] == j as usize);
                            }
                        }
                    } else {
                        if self.objects@[j] is None {
                            assert(self.free@[self.free@.len() - 1] == i);
                        }
                        if self.free@.contains(j as usize) {
                            let q = choose|q: int| 0 <= q < self.free@.len() && self.free@[q] == j as usize;
                            if q < before_free.len() {
                                assert(before_free[q] < i);
                            }
                        }
                    }
                }
            }
            i = i + 1;
        }
        proof {
            assert forall|k: Seq<char>|
                #[trigger] string_table_contents(self.strings).contains_key(k) implies {
                    let idx = string_table_contents(self.strings)[k] as int;
                    &&& live(self.objects@, idx)
                    &&& self.objects@[idx]->Some_0.data matches ObjectData::String(st) && st.value@ == k
                } by {
                let idx = string_table_contents(self.strings)[k] as int;
                assert(marked(old(self).objects@, idx));
                assert(self.objects@[idx] == Some(HeapObject { is_marked: false, data: old(self).objects@[idx]->Some_0.data }));
            }
            assert forall|q: int| 0 <= q < self.objects@.len() implies !marked(self.objects@, q) by {
                assert(self.objects@[q] == (if marked(old(self).objects@, q) {
                    Some(HeapObject { is_marked: false, data: old(self).objects@[q]->Some_0.data })
                } else {
                    None
                }));
            }
        }
    }

    /// Frees every object that is not reachable from the objects in the
    /// `roots` slots. Reachable objects keep their slots and their contents;
    /// no object is created.
    pub fn collect(&mut self, roots: &Vec<usize>)
        requires
            old(self).wf(),
        ensures
            final(self).wf(),
            final(self).objects@.len() == old(self).objects@.len(),
            forall|i: int| #[trigger] live(final(self).objects@, i) ==> live(old(self).objects@, i)
                && final(self).objects@[i]->Some_0.data == old(self).objects@[i]->Some_0.data,
            forall|j: int| #[trigger] reachable(old(self).objects@, roots_set(roots@), j) ==> live(final(self).objects@, j)
                && final(self).objects@[j]->Some_0.data == old(self).objects@[j]->Some_0.data,
            forall|i: int| #[trigger] live(final(self).objects@, i) ==> reachable(old(self).objects@, roots_set(roots@), i),
            forall|k: Seq<char>|
                #[trigger] string_table_contents(final(self).strings).contains_key(k) ==> string_table_contents(
                    old(self).strings,
                ).contains_key(k) && string_table_contents(final(self).strings)[k] == string_table_contents(old(self).strings)[k],
            forall|k: Seq<char>|
                #[trigger] string_table_contents(old(self).strings).contains_key(k) && reachable(
                    old(self).objects@,
                    roots_set(roots@),
                    string_table_contents(old(self).strings)[k] as int,
                ) ==> string_table_contents(final(self).strings).contains_key(k),
    {
        let n = roots.len();
        let mut k: usize = 0;
        while k < n
            invariant
                n == roots@.len(),
                k <= n,
                same_objects(old(self).objects@, self.objects@),
                self.objects@.len() <= MAX_OBJECTS,
                self.strings == old(self).strings,
                old(self).strings_wf(),
                forall|i: int| #[trigger] marked(self.objects@, i) ==> self.gray_objects@.contains(i as usize),
                forall|q: int| 0 <= q < self.gray_objects@.len() ==> marked(self.objects@, #[trigger] self.gray_objects@[q] as int),
                forall|q: int| 0 <= q < k && live(self.objects@, roots@[q] as int) ==> marked(self.objects@, #[trigger] roots@[q] as int),
                forall|i: int| #[trigger] marked(self.objects@, i) ==> roots_set(roots@).contains(i),
            decreases n - k,
        {
            let ghost gray_b = self.gray_objects@;
            let ghost objs_b = self.objects@;
            self.mark_object(roots[k]);
            proof {
                assert forall|i: int| #[trigger] marked(self.objects@, i) implies roots_set(roots@).contains(i) by {
                    if !marked(objs_b, i) {
                        assert(i == roots@[k as int] as int);
                    }
                }
                assert forall|i: int| #[trigger] marked(self.objects@, i) implies self.gray_objects@.contains(i as usize) by {
                    if marked(objs_b, i) {
                        let q = choose|q: int| 0 <= q < gray_b.len() && gray_b[q] == i as usize;
                        assert(self.gray_objects@[q] == i as usize);
                    } else {
                        assert(self.gray_objects@[self.gray_objects@.len() - 1] == i as usize);
                    }
                }
                assert forall|q: int| 0 <= q < self.gray_objects@.len() implies marked(self.objects@, #[trigger] self.gray_objects@[q] as int) by {
                    if q < gray_b.len() {
                        assert(self.gray_objects@[q] == gray_b[q]);
                    }
                }
            }
            k = k + 1;
        }
        let ghost marked_roots = self.objects@;
        proof {
            assert forall|i: int, j: int|
                #[trigger] edge(self.objects@, i, j) && marked(self.objects@, i) && !self.gray_objects@.contains(i as usize) implies marked(self.objects@, j) by {}
        }
        self.trace();
        let ghost traced = self.objects@;
        proof {
            lemma_same_objects_trans(old(self).objects@, marked_roots, traced);
            assert forall|i: int| #[trigger] marked(traced, i) implies reachable(old(self).objects@, roots_set(roots@), i) by {
                assert(reachable(marked_roots, marked_set(marked_roots), i));
                let m = choose|m: nat| #[trigger] reach_n(marked_roots, marked_set(marked_roots), m).contains(i);
                assert(marked_set(marked_roots).subset_of(roots_set(roots@))) by {
                    assert forall|j: int| marked_set(marked_roots).contains(j) implies roots_set(roots@).contains(j) by {
                        assert(marked(marked_roots, j));
                    }
                }
                lemma_reach_mono(marked_roots, marked_set(marked_roots), roots_set(roots@), m);
                lemma_reach_same(old(self).objects@, marked_roots, roots_set(roots@), m);
                assert(reach_n(old(self).objects@, roots_set(roots@), m).contains(i));
            }
            assert forall|r: int| #[trigger] roots_set(roots@).contains(r) && live(traced, r) implies marked(traced, r) by {
                let q = choose|q: int| 0 <= q < roots@.len() && roots@[q] as int == r;
                assert(marked(marked_roots, roots@[q] as int));
            }
            assert forall|i: int|
                live(traced, i) && (#[trigger] traced[i])->Some_0.data is String implies {
                    let k = traced[i]->Some_0.data->String_0.value@;
                    &&& string_table_contents(self.strings).contains_key(k)
                    &&& string_table_contents(self.strings)[k] == i
                } by {
                assert(old(self).objects@[i] is Some);
                assert(old(self).objects@[i]->Some_0.data == traced[i]->Some_0.data);
            }
        }
        self.sweep();
        proof {
            assert forall|i: int| #[trigger] live(self.objects@, i) implies live(old(self).objects@, i)
                && self.objects@[i]->Some_0.data == old(self).objects@[i]->Some_0.data && reachable(
                old(self).objects@,
                roots_set(roots@),
                i,
            ) by {
                assert(self.objects@[i] == (if marked(traced, i) {
                    Some(HeapObject { is_marked: false, data: traced[i]->Some_0.data })
                } else {
                    None
                }));
            }
            assert forall|j: int| #[trigger] reachable(old(self).objects@, roots_set(roots@), j) implies live(self.objects@, j)
                && self.objects@[j]->Some_0.data == old(self).objects@[j]->Some_0.data by {
                let m = choose|m: nat| #[trigger] reach_n(old(self).objects@, roots_set(roots@), m).contains(j);
                lemma_reach_same(old(self).objects@, traced, roots_set(roots@), m);
                lemma_closed_holds_reachable(traced, roots_set(roots@), m);
                assert(marked(traced, j));
                assert(self.objects@[j] == Some(HeapObject { is_marked: false, data: traced[j]->Some_0.data }));
            }
            assert forall|k: Seq<char>|
                #[trigger] string_table_contents(old(self).strings).contains_key(k) && reachable(
                    old(self).objects@,
                    roots_set(roots@),
                    string_table_contents(old(self).strings)[k] as int,
                ) implies string_table_contents(self.strings).contains_key(k) by {
                let j = string_table_contents(old(self).strings)[k] as int;
                let m = choose|m: nat| #[trigger] reach_n(old(self).objects@, roots_set(roots@), m).contains(j);
                lemma_reach_same(old(self).objects@, traced, roots_set(roots@), m);
                lemma_closed_holds_reachable(traced, roots_set(roots@), m);
                assert(marked(traced, j));
            }
        }
    }

    /// Marks the object a value refers to, if it refers to one.
    pub fn mark(&mut self, value: Value)
        ensures
            same_objects(old(self).objects@, final(self).objects@),
            final(self).strings == old(self).strings,
            value.is_object_spec() && value.payload() <= usize::MAX ==> {
                &&& forall|i: int| #![trigger final(self).objects@[i]]
                    marked(final(self).objects@, i) <==> (marked(old(self).objects@, i) || (i == value.payload() && live(old(self).objects@, i)))
            },
            !(value.is_object_spec() && value.payload() <= usize::MAX) ==> final(self).objects@ == old(self).objects@ && final(self).gray_objects@ == old(self).gray_objects@,
    {
        if value.is_object() {
            let idx = value.as_object();
            if idx <= usize::MAX as u64 {
                self.mark_object(idx as usize);
            }
        }
    }
}


/// Only slot `idx` may differ between the two heaps.
pub open spec fn others_same(a: Seq<Option<HeapObject>>, b: Seq<Option<HeapObject>>, idx: int) -> bool {
    &&& a.len() == b.len()
    &&& forall|i: int| 0 <= i < a.len() && i != idx ==> #[trigger] b[i] == a[i]
}

impl Gc {
    /// Sets a field of the instance in slot `idx`: `key` is the string
    /// object of its name. False, and nothing changes, when the slot holds no
    /// instance.
    pub fn set_field(&mut self, idx: usize, key: usize, value: Value) -> (ok: bool)
        requires
            old(self).wf(),
        ensures
            final(self).wf(),
            final(self).strings == old(self).strings,
            others_same(old(self).objects@, final(self).objects@, idx as int),
            ok == (idx < old(self).objects@.len() && (old(self).objects@[idx as int] matches Some(h) && h.data is Instance)),
            !ok ==> final(self).objects@ == old(self).objects@,
            ok ==> (final(self).objects@[idx as int] matches Some(h) && h.data matches ObjectData::Instance(inst)
                && inst.class == old(self).objects@[idx as int]->Some_0.data->Instance_0.class
                && value_table_contents(inst.fields) == value_table_contents(
                    old(self).objects@[idx as int]->Some_0.data->Instance_0.fields).insert(key, value)),
    {
        if idx >= self.objects.len() {
            return false;
        }
        let ghost objs = self.objects@;
        let ok = match &mut self.objects[idx] {
            Some(h) => match &mut h.data {
                ObjectData::Instance(inst) => {
                    inst.fields.insert(key, value);
                    true
                },
                _ => false,
            },
            None => false,
        };
        proof {
            assert(self.objects@.len() == objs.len());
            assert(!marked(objs, idx as int));
            assert(self.objects@[idx as int] is Some ==> self.objects@[idx as int]->Some_0.is_marked == objs[idx as int]->Some_0.is_marked);
            if ok {
                assert(objs[idx as int] is Some && objs[idx as int]->Some_0.data is Instance);
                assert(self.objects@[idx as int] is Some && self.objects@[idx as int]->Some_0.data is Instance);
                assert(!objs[idx as int]->Some_0.is_marked);
                assert(!self.objects@[idx as int]->Some_0.is_marked);
            } else {
                assert(self.objects@[idx as int] == objs[idx as int]);
            }
            self.lemma_one_slot_changed(objs, idx as int);
        }
        ok
    }

    /// Adds a method to the class in slot `idx`. False, and nothing changes,
    /// when the slot holds no class.
    pub fn set_method(&mut self, idx: usize, key: usize, value: Value) -> (ok: bool)
        requires
            old(self).wf(),
        ensures
            final(self).wf(),
            final(self).strings == old(self).strings,
            others_same(old(self).objects@, final(self).objects@, idx as int),
            ok == (idx < old(self).objects@.len() && (old(self).objects@[idx as int] matches Some(h) && h.data is Class)),
            !ok ==> final(self).objects@ == old(self).objects@,
            ok ==> (final(self).objects@[idx as int] matches Some(h) && h.data matches ObjectData::Class(c)
                && c.name == old(self).objects@[idx as int]->Some_0.data->Class_0.name
                && value_table_contents(c.methods) == value_table_contents(
                    old(self).objects@[idx as int]->Some_0.data->Class_0.methods).insert(key, value)),
    {
        if idx >= self.objects.len() {
            return false;
        }
        let ghost objs = self.objects@;
        let ok = match &mut self.objects[idx] {
            Some(h) => match &mut h.data {
                ObjectData::Class(c) => {
                    c.methods.insert(key, value);
                    true
                },
                _ => false,
            },
            None => false,
        };
        proof {
            assert(self.objects@.len() == objs.len());
            assert(self.objects@[idx as int] is Some <==> objs[idx as int] is Some);
            assert(self.objects@[idx as int] is Some ==> self.objects@[idx as int]->Some_0.is_marked == objs[idx as int]->Some_0.is_marked);
            assert(!marked(objs, idx as int));
            if ok {
                assert(objs[idx as int] is Some && objs[idx as int]->Some_0.data is Class);
                assert(self.objects@[idx as int] is Some && self.objects@[idx as int]->Some_0.data is Class);
            } else {
                assert(self.objects@[idx as int] == objs[idx as int]);
            }
            self.lemma_one_slot_changed(objs, idx as int);
        }
        ok
    }

    /// Gives the class in slot `idx` the methods of `methods`. False, and
    /// nothing changes, when the slot holds no class.
    pub fn set_methods(&mut self, idx: usize, methods: ValueTable) -> (ok: bool)
        requires
            old(self).wf(),
        ensures
            final(self).wf(),
            final(self).strings == old(self).strings,
            others_same(old(self).objects@, final(self).objects@, idx as int),
            ok == (idx < old(self).objects@.len() && (old(self).objects@[idx as int] matches Some(h) && h.data is Class)),
            !ok ==> final(self).objects@ == old(self).objects@,
            ok ==> (final(self).objects@[idx as int] matches Some(h) && h.data matches ObjectData::Class(c)
                && c.name == old(self).objects@[idx as int]->Some_0.data->Class_0.name
                && value_table_contents(c.methods) == value_table_contents(methods)),
    {
        if idx >= self.objects.len() {
            return false;
        }
        let ghost objs = self.objects@;
        let ok = match &mut self.objects[idx] {
            Some(h) => match &mut h.data {
                ObjectData::Class(c) => {
                    c.methods = methods;
                    true
                },
                _ => false,
            },
            None => false,
        };
        proof {
            assert(self.objects@.len() == objs.len());
            assert(self.objects@[idx as int] is Some <==> objs[idx as int] is Some);
            assert(self.objects@[idx as int] is Some ==> self.objects@[idx as int]->Some_0.is_marked == objs[idx as int]->Some_0.is_marked);
            assert(!marked(objs, idx as int));
            if ok {
                assert(objs[idx as int] is Some && objs[idx as int]->Some_0.data is Class);
                assert(self.objects@[idx as int] is Some && self.objects@[idx as int]->Some_0.data is Class);
            } else {
                assert(self.objects@[idx as int] == objs[idx as int]);
            }
            self.lemma_one_slot_changed(objs, idx as int);
        }
        ok
    }

    /// Closes the upvalue in slot `idx`: it no longer refers to a stack slot
    /// and holds `value` itself. False, and nothing changes, when the slot
    /// holds no upvalue.
    pub fn close_upvalue(&mut self, idx: usize, value: Value) -> (ok: bool)
        requires
            old(self).wf(),
        ensures
            final(self).wf(),
            final(self).strings == old(self).strings,
            others_same(old(self).objects@, final(self).objects@, idx as int),
            ok == (idx < old(self).objects@.len() && (old(self).objects@[idx as int] matches Some(h) && h.data is Upvalue)),
            !ok ==> final(self).objects@ == old(self).objects@,
            ok ==> (final(self).objects@[idx as int] matches Some(h) && h.data matches ObjectData::Upvalue(u)
                && u.location is None && u.closed == value),
    {
        if idx >= self.objects.len() {
            return false;
        }
        let ghost objs = self.objects@;
        let ok = match &mut self.objects[idx] {
            Some(h) => match &mut h.data {
                ObjectData::Upvalue(u) => {
                    u.location = None;
                    u.closed = value;
                    true
                },
                _ => false,
            },
            None => false,
        };
        proof {
            assert(self.objects@.len() == objs.len());
            assert(self.objects@[idx as int] is Some <==> objs[idx as int] is Some);
            assert(self.objects@[idx as int] is Some ==> self.objects@[idx as int]->Some_0.is_marked == objs[idx as int]->Some_0.is_marked);
            assert(!marked(objs, idx as int));
            if ok {
                assert(objs[idx as int] is Some && objs[idx as int]->Some_0.data is Upvalue);
                assert(self.objects@[idx as int] is Some && self.objects@[idx as int]->Some_0.data is Upvalue);
            } else {
                assert(self.objects@[idx as int] == objs[idx as int]);
            }
            self.lemma_one_slot_changed(objs, idx as int);
        }
        ok
    }

    /// A change of slot `idx` that keeps it unmarked, and keeps it a string
    /// exactly when it was one, with the same text, keeps the heap well
    /// formed.
    proof fn lemma_one_slot_changed(&self, before: Seq<Option<HeapObject>>, idx: int)
        requires
            self.objects@.len() == before.len(),
            before.len() <= MAX_OBJECTS,
            self.gray_objects@.len() == 0,
            forall|i: int| 0 <= i < before.len() ==> !marked(before, i),
            forall|i: int| 0 <= i < before.len() && i != idx ==> #[trigger] self.objects@[i] == before[i],
            forall|k: Seq<char>|
                #[trigger] string_table_contents(self.strings).contains_key(k) ==> {
                    let i = string_table_contents(self.strings)[k] as int;
                    &&& live(before, i)
                    &&& before[i]->Some_0.data matches ObjectData::String(s) && s.value@ == k
                },
            0 <= idx < before.len() ==> self.objects@[idx] == before[idx] || (self.objects@[idx] is Some && before[idx] is Some
                && !self.objects@[idx]->Some_0.is_marked
                && !(before[idx]->Some_0.data is String) && !(self.objects@[idx]->Some_0.data is String)),
            free_wf(before, self.free@),
            interned(before, self.strings),
        ensures
            self.wf(),
            others_same(before, self.objects@, idx),
    {
        assert forall|k: Seq<char>|
            #[trigger] string_table_contents(self.strings).contains_key(k) implies {
                let i = string_table_contents(self.strings)[k] as int;
                &&& live(self.objects@, i)
                &&& self.objects@[i]->Some_0.data matches ObjectData::String(s) && s.value@ == k
            } by {
            let i = string_table_contents(self.strings)[k] as int;
            assert(self.objects@[i] == before[i]);
        }
        assert forall|i: int| 0 <= i < self.objects@.len() implies !marked(self.objects@, i) by {
            assert(!marked(before, i));
            if i != idx {
                assert(self.objects@[i] == before[i]);
            }
        }
        assert forall|q: int| 0 <= q < self.free@.len() implies (#[trigger] self.free@[q]) < self.objects@.len()
            && self.objects@[self.free@[q] as int] is None by {
            assert(before[self.free@[q] as int] is None);
        }
        assert forall|i: int|
            live(self.objects@, i) && (#[trigger] self.objects@[i])->Some_0.data is String implies {
                let k = self.objects@[i]->Some_0.data->String_0.value@;
                &&& string_table_contents(self.strings).contains_key(k)
                &&& string_table_contents(self.strings)[k] == i
            } by {
            assert(self.objects@[i] == before[i]);
        }
    }
}


/// Strings are interned: two live string objects with the same characters
/// are one object.
pub proof fn lemma_one_object_per_text(gc: &Gc, i: int, j: int, k: Seq<char>)
    requires
        gc.wf(),
        gc.is_string(i, k),
        gc.is_string(j, k),
    ensures
        i == j,
{
    assert(gc.objects@[i]->Some_0.data->String_0.value@ == k);
    assert(gc.objects@[j]->Some_0.data->String_0.value@ == k);
}

/// Reaching from more roots reaches at least as much.
pub proof fn lemma_reach_mono(objs: Seq<Option<HeapObject>>, a: Set<int>, b: Set<int>, n: nat)
    requires
        a.subset_of(b),
    ensures
        reach_n(objs, a, n).subset_of(reach_n(objs, b, n)),
    decreases n,
{
    if n > 0 {
        lemma_reach_mono(objs, a, b, (n - 1) as nat);
        let pa = reach_n(objs, a, (n - 1) as nat);
        let pb = reach_n(objs, b, (n - 1) as nat);
        assert forall|j: int| reach_n(objs, a, n).contains(j) implies reach_n(objs, b, n).contains(j) by {
            if !pa.contains(j) {
                let i = choose|i: int| pa.contains(i) && edge(objs, i, j);
                assert(pb.contains(i));
            }
        }
    }
}

/// The number of live objects among the first `k` slots.
pub open spec fn live_among(objs: Seq<Option<HeapObject>>, k: int) -> nat
    decreases k,
{
    if k <= 0 {
        0
    } else {
        live_among(objs, k - 1) + if objs[k - 1] is Some {
            1nat
        } else {
            0nat
        }
    }
}

impl Gc {
    /// The number of live objects.
    pub fn live_count(&self) -> (r: usize)
        ensures
            r <= self.objects@.len(),
            r == live_among(self.objects@, self.objects@.len() as int),
    {
        let mut k: usize = 0;
        let mut n: usize = 0;
        while k < self.objects.len()
            invariant
                k <= self.objects@.len(),
                n <= k,
                n == live_among(self.objects@, k as int),
            decreases self.objects@.len() - k,
        {
            if self.objects[k].is_some() {
                n = n + 1;
            }
            k = k + 1;
        }
        n
    }
}


/// Whether interning found the string already there.
#[derive(Clone, Copy, Debug, PartialEq, Eq, Structural)]
pub enum InternState {
    /// The string has already been interned.
    Borrowed,
    /// The string has freshly been interned.
    Owned,
}

impl Gc {
    /// Interns a string: the slot of its string object, and whether it was
    /// there already.
    pub fn insert_str(&mut self, s: &str) -> (r: (usize, InternState))
        requires
            old(self).wf(),
            old(self).room(),
        ensures
            final(self).wf(),
            final(self).is_string(r.0 as int, s@),
            string_table_contents(final(self).strings).contains_key(s@),
            string_table_contents(final(self).strings)[s@] == r.0,
            string_table_contents(old(self).strings).contains_key(s@) ==> r.0 == string_table_contents(old(self).strings)[s@],
            r.1 == (if string_table_contents(old(self).strings).contains_key(s@) { InternState::Borrowed } else { InternState::Owned }),
            string_table_contents(old(self).strings).contains_key(s@) ==> final(self).objects@ == old(self).objects@
                && string_table_contents(final(self).strings) == string_table_contents(old(self).strings),
            !string_table_contents(old(self).strings).contains_key(s@) ==> r.0 == old(self).next_slot()
                && string_table_contents(final(self).strings) == string_table_contents(old(self).strings).insert(s@, r.0),
    {
        let known = self.strings.get(s).is_some();
        let idx = self.alloc_str(s);
        (idx, if known { InternState::Borrowed } else { InternState::Owned })
    }
}

} // verus!
