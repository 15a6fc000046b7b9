//! The memory of the search: a table of fixed size that keeps, for tables
//! of tiles met before, what the search found for them.

use crate::candidates::copy_tiles;
use crate::search::{Found, found_plan, found_size, optimal, playable, views};
use crate::table::copy_table;
use crate::tile::Tile;
use vstd::prelude::*;

verus! {

/// What the search found for one pair of tables.
pub(crate) struct Entry {
    rem: Vec<usize>,
    cap: Vec<usize>,
    found: Found,
}

/// A table of entries with a fixed number of slots. An entry that finds
/// no free slot near its own is not kept, so the table never grows.
pub(crate) struct Memo {
    slots: Vec<Option<Entry>>,
}

/// How many slots are tried for one entry.
pub(crate) const PROBES: usize = 8;

/// Whether two tables are equal.
fn same_table(a: &Vec<usize>, b: &Vec<usize>) -> (r: bool)
    ensures
        r == (a@ == b@),
{
    if a.len() != b.len() {
        return false;
    }
    let mut i: usize = 0;
    while i < a.len()
        invariant
            a@.len() == b@.len(),
            i <= a@.len(),
            forall|j: int| 0 <= j < i ==> a@[j] == b@[j],
        decreases a@.len() - i,
    {
        if a[i] != b[i] {
            return false;
        }
        i += 1;
    }
    proof {
        assert(a@ =~= b@);
    }
    true
}

/// A copy of what was found.
pub(crate) fn copy_found(found: &Found) -> (r: Found)
    ensures
        r is Some == found is Some,
        found_plan(r) == found_plan(*found),
        found_size(r) == found_size(*found),
{
    match found {
        None => None,
        Some((p, n)) => {
            let mut r: Vec<Vec<Tile>> = Vec::new();
            let mut i: usize = 0;
            while i < p.len()
                invariant
                    i <= p@.len(),
                    r@.len() == i,
                    forall|j: int| 0 <= j < i ==> (#[trigger] r@[j])@ == p@[j]@,
                decreases p@.len() - i,
            {
                r.push(copy_tiles(&p[i]));
                i += 1;
            }
            proof {
                assert(views(r@) =~= views(p@));
            }
            Some((r, *n))
        },
    }
}

/// A number mixed from the number `h` and the entries of a table: entry
/// by entry, the number so far times `factor`, plus the entry's last 16
/// bits, modulo a prime below 2^32.
pub(crate) open spec fn mixed(h: int, t: Seq<usize>, factor: int) -> int
    decreases t.len(),
{
    if t.len() == 0 {
        h
    } else {
        (mixed(h, t.drop_last(), factor) * factor + t.last() % 65536) % 4294967291
    }
}

/// The slot at which the search for a pair of tables begins, in a table of
/// `slots` slots: a number mixed from both tables, modulo `slots`.
pub(crate) open spec fn home_of(rem: Seq<usize>, cap: Seq<usize>, slots: int) -> int {
    mixed(mixed(7, rem, 131), cap, 137) % slots
}

/// The slot at which the search for a pair of tables begins.
fn home(rem: &Vec<usize>, cap: &Vec<usize>, slots: usize) -> (r: usize)
    requires
        slots > 0,
    ensures
        r == home_of(rem@, cap@, slots as int),
        r < slots,
{
    let mut h: u64 = 7;
    let mut i: usize = 0;
    proof {
        assert(rem@.take(0) =~= Seq::<usize>::empty());
    }
    while i < rem.len()
        invariant
            i <= rem@.len(),
            0 <= h < 4294967291,
            h == mixed(7, rem@.take(i as int), 131),
        decreases rem@.len() - i,
    {
        proof {
            assert(rem@.take(i + 1).drop_last() =~= rem@.take(i as int));
            assert(rem@.take(i + 1).last() == rem@[i as int]);
        }
        h = (h * 131 + (rem[i] % 65536) as u64) % 4294967291;
        i += 1;
    }
    let ghost first = h as int;
    let mut j: usize = 0;
    proof {
        assert(rem@.take(rem@.len() as int) =~= rem@);
        assert(cap@.take(0) =~= Seq::<usize>::empty());
    }
    while j < cap.len()
        invariant
            j <= cap@.len(),
            0 <= h < 4294967291,
            first == mixed(7, rem@, 131),
            h == mixed(first, cap@.take(j as int), 137),
        decreases cap@.len() - j,
    {
        proof {
            assert(cap@.take(j + 1).drop_last() =~= cap@.take(j as int));
            assert(cap@.take(j + 1).last() == cap@[j as int]);
        }
        h = (h * 137 + (cap[j] % 65536) as u64) % 4294967291;
        j += 1;
    }
    proof {
        assert(cap@.take(cap@.len() as int) =~= cap@);
    }
    (h as usize) % slots
}

/// The slot that stands `tries` slots behind the slot `start`, going
/// round a table of `slots` slots.
pub(crate) open spec fn probed(start: int, tries: int, slots: int) -> int {
    if start + tries < slots {
        start + tries
    } else {
        start + tries - slots
    }
}

/// The slot that is tried after `tries` others, going round the table.
fn probe(start: usize, tries: usize, slots: usize) -> (r: usize)
    requires
        start < slots,
        tries < slots,
    ensures
        r == probed(start as int, tries as int, slots as int),
        r < slots,
{
    if tries < slots - start {
        start + tries
    } else {
        tries - (slots - start)
    }
}

/// One find is a copy of the other: both hold a plan or neither does, the
/// plans have the same groups, and the same number stands beside them.
pub(crate) open spec fn same_found(a: Found, b: Found) -> bool {
    &&& a is Some == b is Some
    &&& found_plan(a) == found_plan(b)
    &&& found_size(a) == found_size(b)
}

impl Entry {
    /// The entry holds what the search is to find for its tables.
    pub(crate) closed spec fn wf(&self) -> bool {
        &&& self.rem@.len() == 53
        &&& self.cap@.len() == 53
        &&& playable(self.found, self.rem@, self.cap@)
        &&& optimal(self.found, self.rem@, self.cap@)
    }
}

impl Memo {
    /// Every entry of the table holds what the search is to find for its
    /// tables.
    pub(crate) closed spec fn wf(&self) -> bool {
        forall|i: int|
            0 <= i < self.slots@.len() ==> (#[trigger] self.slots@[i] matches Some(e) ==> e.wf())
    }

    /// The number of slots.
    pub(crate) closed spec fn capacity(&self) -> nat {
        self.slots@.len()
    }

    /// An empty table with the given number of slots.
    pub(crate) fn new(capacity: usize) -> (m: Memo)
        ensures
            m.wf(),
            m.capacity() == capacity,
    {
        let mut slots: Vec<Option<Entry>> = Vec::new();
        let mut i: usize = 0;
        while i < capacity
            invariant
                i <= capacity,
                slots@.len() == i,
                forall|j: int| 0 <= j < i ==> slots@[j] is None,
            decreases capacity - i,
        {
            slots.push(None);
            i += 1;
        }
        Memo { slots }
    }

    /// The tables of the entry in a slot, where the slot holds one.
    pub(crate) closed spec fn key(&self, i: int) -> Option<(Seq<usize>, Seq<usize>)> {
        match self.slots@[i] {
            Some(e) => Some((e.rem@, e.cap@)),
            None => None,
        }
    }

    /// What the entry in a slot keeps as found; nothing for a free slot.
    pub(crate) closed spec fn held(&self, i: int) -> Found {
        match self.slots@[i] {
            Some(e) => e.found,
            None => None,
        }
    }

    /// The slot in which a search for the tables `rem` and `cap` finds
    /// their entry, when it has tried `tries` slots from the slot `start`
    /// on in vain: it goes from slot to slot, over entries of other tables,
    /// and gives up at a free slot and after `PROBES` tries.
    pub(crate) closed spec fn seek(
        &self,
        rem: Seq<usize>,
        cap: Seq<usize>,
        start: int,
        tries: int,
    ) -> Option<int>
        decreases PROBES - tries,
    {
        if tries >= PROBES || tries >= self.slots@.len() {
            None
        } else {
            let at = probed(start, tries, self.slots@.len() as int);
            match self.key(at) {
                None => None,
                Some(k) => if k == (rem, cap) {
                    Some(at)
                } else {
                    self.seek(rem, cap, start, tries + 1)
                },
            }
        }
    }

    /// The slot in which the table keeps the entry of the tables `rem` and
    /// `cap`, where a search that begins at their home finds it.
    pub(crate) closed spec fn place(&self, rem: Seq<usize>, cap: Seq<usize>) -> Option<int> {
        if self.slots@.len() == 0 {
            None
        } else {
            self.seek(rem, cap, home_of(rem, cap, self.slots@.len() as int), 0)
        }
    }

    /// The first free slot from the slot `start` on, when `tries` slots
    /// have been tried and were taken; none after `PROBES` tries.
    pub(crate) closed spec fn gap(&self, start: int, tries: int) -> Option<int>
        decreases PROBES - tries,
    {
        if tries >= PROBES || tries >= self.slots@.len() {
            None
        } else {
            let at = probed(start, tries, self.slots@.len() as int);
            if self.key(at) is None {
                Some(at)
            } else {
                self.gap(start, tries + 1)
            }
        }
    }

    /// The slot that is free for an entry of the tables `rem` and `cap`:
    /// the first free one among the `PROBES` slots from their home on.
    pub(crate) closed spec fn opening(&self, rem: Seq<usize>, cap: Seq<usize>) -> Option<int> {
        if self.slots@.len() == 0 {
            None
        } else {
            self.gap(home_of(rem, cap, self.slots@.len() as int), 0)
        }
    }

    /// The slot that is free for an entry is a free slot of the table.
    /// Once it holds an entry of the tables `rem` and `cap`, and the other
    /// slots hold what they held, a search for these tables finds an entry
    /// of theirs.
    pub(crate) proof fn lemma_stored_is_found(
        before: Memo,
        after: Memo,
        rem: Seq<usize>,
        cap: Seq<usize>,
        start: int,
        tries: int,
    )
        requires
            before.capacity() == after.capacity(),
            0 <= start < before.capacity(),
            0 <= tries,
            before.gap(start, tries) matches Some(at) && after.key(at) == Some((rem, cap))
                && forall|i: int|
                0 <= i < before.capacity() && i != at ==> after.key(i) == before.key(i),
        ensures
            before.gap(start, tries) matches Some(at) && 0 <= at < before.capacity()
                && before.key(at) is None,
            after.seek(rem, cap, start, tries) is Some,
        decreases PROBES - tries,
    {
        let n = before.slots@.len() as int;
        let at = probed(start, tries, n);
        if before.key(at) is Some {
            Self::lemma_stored_is_found(before, after, rem, cap, start, tries + 1);
        }
    }

    /// What the search found for these tables, if the table remembers: a
    /// copy of what the entry in their place keeps, and nothing where they
    /// have no place.
    pub(crate) fn lookup(&self, rem: &Vec<usize>, cap: &Vec<usize>) -> (r: Option<Found>)
        requires
            self.wf(),
        ensures
            match r {
                Some(found) => self.place(rem@, cap@) matches Some(at) && same_found(
                    found,
                    self.held(at),
                ),
                None => self.place(rem@, cap@) is None,
            },
            r matches Some(found) ==> playable(found, rem@, cap@) && optimal(found, rem@, cap@),
    {
        let n: usize = self.slots.len();
        if n == 0 {
            return None;
        }
        let start: usize = home(rem, cap, n);
        let mut tries: usize = 0;
        while tries < PROBES && tries < n
            invariant
                self.wf(),
                n == self.slots@.len(),
                n > 0,
                start < n,
                self.seek(rem@, cap@, start as int, tries as int) == self.place(rem@, cap@),
            decreases PROBES - tries,
        {
            let at: usize = probe(start, tries, n);
            match &self.slots[at] {
                None => {
                    return None;
                },
                Some(e) => {
                    if same_table(&e.rem, rem) && same_table(&e.cap, cap) {
                        let found: Found = copy_found(&e.found);
                        proof {
                            assert(self.slots@[at as int] matches Some(x) && x.wf());
                            assert forall|q: Seq<Seq<Tile>>| #[trigger]
                                crate::plan::fits(q, rem@, cap@) implies crate::search::settled(
                                q,
                                found,
                            ) by {
                                assert(crate::search::settled(q, e.found));
                            }
                        }
                        return Some(found);
                    }
                },
            }
            tries += 1;
        }
        None
    }

    /// Remembers what the search found for these tables, where a slot is
    /// free for it: that slot then holds an entry of these tables with a
    /// copy of what was found, and every other slot holds what it held.
    /// Where no slot is free, the table stays as it is.
    pub(crate) fn store(&mut self, rem: &Vec<usize>, cap: &Vec<usize>, found: &Found)
        requires
            old(self).wf(),
            rem@.len() == 53,
            cap@.len() == 53,
            playable(*found, rem@, cap@),
            optimal(*found, rem@, cap@),
        ensures
            final(self).wf(),
            final(self).capacity() == old(self).capacity(),
            match old(self).opening(rem@, cap@) {
                Some(at) => {
                    &&& 0 <= at < old(self).capacity()
                    &&& final(self).key(at) == Some((rem@, cap@))
                    &&& same_found(final(self).held(at), *found)
                    &&& forall|i: int|
                        0 <= i < old(self).capacity() && i != at ==> final(self).key(i) == old(
                            self,
                        ).key(i) && final(self).held(i) == old(self).held(i)
                },
                None => forall|i: int|
                    0 <= i < old(self).capacity() ==> final(self).key(i) == old(self).key(i)
                        && final(self).held(i) == old(self).held(i),
            },
            old(self).opening(rem@, cap@) is Some ==> final(self).place(rem@, cap@) is Some,
    {
        let n: usize = self.slots.len();
        if n == 0 {
            return ;
        }
        let start: usize = home(rem, cap, n);
        let mut tries: usize = 0;
        while tries < PROBES && tries < n
            invariant
                self.wf(),
                *self == *old(self),
                n == self.slots@.len(),
                n > 0,
                start < n,
                rem@.len() == 53,
                cap@.len() == 53,
                playable(*found, rem@, cap@),
                optimal(*found, rem@, cap@),
                start == home_of(rem@, cap@, n as int),
                self.gap(start as int, tries as int) == self.opening(rem@, cap@),
            decreases PROBES - tries,
        {
            let at: usize = probe(start, tries, n);
            let free: bool = match &self.slots[at] {
                None => true,
                Some(_) => false,
            };
            if free {
                let kept: Found = copy_found(found);
                let e: Entry = Entry { rem: copy_table(rem), cap: copy_table(cap), found: kept };
                proof {
                    assert forall|q: Seq<Seq<Tile>>| #[trigger]
                        crate::plan::fits(q, rem@, cap@) implies crate::search::settled(
                        q,
                        kept,
                    ) by {
                        assert(crate::search::settled(q, *found));
                    }
                    assert(e.wf());
                    assert(self.key(at as int) is None);
                    assert(self.gap(start as int, tries as int) == Some(at as int));
                }
                let ghost before = *self;
                self.slots.set(at, Some(e));
                proof {
                    assert(self.key(at as int) == Some((rem@, cap@)));
                    assert forall|i: int| 0 <= i < before.capacity() && i != at implies self.key(i)
                        == before.key(i) && self.held(i) == before.held(i) by {
                        assert(self.slots@[i] == before.slots@[i]);
                    }
                    assert(before.gap(start as int, 0) == Some(at as int));
                    Self::lemma_stored_is_found(before, *self, rem@, cap@, start as int, 0);
                }
                return ;
            }
            tries += 1;
        }
    }
}

} // verus!
