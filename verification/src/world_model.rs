//! The world model: the shared read-only data (tile catalog, colors, multi
//! table), the caller-supplied custom multi parts, the serial-keyed index
//! of top-level items, and the operations that keep index and overlay in
//! step.

use vstd::prelude::*;
use crate::api::MultiItemPart;
use crate::colordata::ColorData;
use crate::multidata::Multi;
use crate::tiledata::TileData;
use crate::tiles::TopLevelItem;
use crate::world::DynamicWorld;

verus! {

/// The first entry with the given serial, scanning from the front.
pub open spec fn lookup_item(s: Seq<TopLevelItem>, serial: u32) -> Option<TopLevelItem>
    decreases s.len(),
{
    if s.len() == 0 {
        None
    } else if s[0].serial == serial {
        Some(s[0])
    } else {
        lookup_item(s.drop_first(), serial)
    }
}

/// The index of top-level items, keyed by serial.
pub struct ItemsIndex {
    pub entries: Vec<TopLevelItem>,
}

/// No serial occurs twice.
pub open spec fn items_unique(s: Seq<TopLevelItem>) -> bool {
    forall|i: int, j: int|
        0 <= i < j < s.len() ==> (#[trigger] s[i]).serial != (#[trigger] s[j]).serial
}

/// A found entry is a real entry, and conversely.
proof fn lemma_lookup_item_index(s: Seq<TopLevelItem>, serial: u32)
    ensures
        lookup_item(s, serial) matches Some(it) ==> it.serial == serial && s.contains(it),
        lookup_item(s, serial) is None ==> forall|i: int|
            0 <= i < s.len() ==> (#[trigger] s[i]).serial != serial,
    decreases s.len(),
{
    if s.len() > 0 {
        lemma_lookup_item_index(s.drop_first(), serial);
        if s[0].serial != serial {
            if lookup_item(s, serial) is Some {
                let it = lookup_item(s, serial)->Some_0;
                assert(s.drop_first().contains(it));
                let k = choose|k: int|
                    0 <= k < s.drop_first().len() && s.drop_first()[k] == it;
                assert(s[k + 1] == it);
            } else {
                assert forall|i: int| 0 <= i < s.len() implies (#[trigger] s[i]).serial
                    != serial by {
                    if i > 0 {
                        assert(s.drop_first()[i - 1] == s[i]);
                    }
                }
            }
        }
    }
}

/// Appending a fresh serial adds exactly that entry to the lookup.
proof fn lemma_lookup_item_push(s: Seq<TopLevelItem>, it: TopLevelItem, serial: u32)
    requires
        lookup_item(s, it.serial) is None,
    ensures
        serial == it.serial ==> lookup_item(s.push(it), serial) == Some(it),
        serial != it.serial ==> lookup_item(s.push(it), serial) == lookup_item(s, serial),
    decreases s.len(),
{
    if s.len() == 0 {
        assert(s.push(it).drop_first() =~= Seq::empty());
    } else {
        assert(s.push(it).drop_first() =~= s.drop_first().push(it));
        lemma_lookup_item_push(s.drop_first(), it, serial);
    }
}

/// Removing index `i` removes exactly that serial from the lookup, when
/// serials are unique.
proof fn lemma_lookup_item_remove(s: Seq<TopLevelItem>, i: int, serial: u32)
    requires
        0 <= i < s.len(),
        items_unique(s),
    ensures
        serial == s[i].serial ==> lookup_item(s.remove(i), serial) is None,
        serial != s[i].serial ==> lookup_item(s.remove(i), serial) == lookup_item(s, serial),
    decreases s.len(),
{
    lemma_lookup_item_index(s.remove(i), serial);
    if serial == s[i].serial {
        if lookup_item(s.remove(i), serial) is Some {
            let it = lookup_item(s.remove(i), serial)->Some_0;
            let k = choose|k: int| 0 <= k < s.remove(i).len() && s.remove(i)[k] == it;
            if k < i {
                assert(s[k] == it);
            } else {
                assert(s[k + 1] == it);
            }
            assert(false);
        }
    } else {
        if i == 0 {
            assert(s.remove(0) =~= s.drop_first());
        } else {
            assert(s.remove(i).drop_first() =~= s.drop_first().remove(i - 1));
            lemma_lookup_item_remove(s.drop_first(), i - 1, serial);
        }
    }
}

impl ItemsIndex {
    pub open spec fn wf(self) -> bool {
        items_unique(self.entries@)
    }

    /// The entry stored under `serial`.
    pub open spec fn get_spec(self, serial: u32) -> Option<TopLevelItem> {
        lookup_item(self.entries@, serial)
    }

    pub fn new() -> (r: ItemsIndex)
        ensures
            r.wf(),
            r.entries@ == Seq::<TopLevelItem>::empty(),
            forall|s: u32| r.get_spec(s) is None,
    {
        let r = ItemsIndex { entries: Vec::new() };
        proof {
            assert forall|s: u32| r.get_spec(s) is None by {}
        }
        r
    }

    pub fn get(&self, serial: u32) -> (r: Option<TopLevelItem>)
        requires
            self.wf(),
        ensures
            r == self.get_spec(serial),
    {
        let n: usize = self.entries.len();
        let mut i: usize = 0;
        while i < n
            invariant
                i <= n == self.entries@.len(),
                forall|k: int| 0 <= k < i ==> (#[trigger] self.entries@[k]).serial != serial,
            decreases n - i,
        {
            if self.entries[i].serial == serial {
                proof {
                    lemma_lookup_found(self.entries@, i as int, serial);
                }
                return Some(self.entries[i]);
            }
            i = i + 1;
        }
        proof {
            lemma_lookup_item_index(self.entries@, serial);
            if self.get_spec(serial) is Some {
                let it = self.get_spec(serial)->Some_0;
                assert(self.entries@.contains(it));
                let k = choose|k: int|
                    0 <= k < self.entries@.len() && self.entries@[k] == it;
                assert(false);
            }
        }
        None
    }

    /// Removes the entry under `serial`, if any, and returns it.
    pub fn remove(&mut self, serial: u32) -> (r: Option<TopLevelItem>)
        requires
            old(self).wf(),
        ensures
            final(self).wf(),
            r == old(self).get_spec(serial),
            final(self).get_spec(serial) is None,
            forall|s: u32| s != serial ==> final(self).get_spec(s) == old(self).get_spec(s),
            r is None ==> final(self).entries@ == old(self).entries@,
            r is Some ==> final(self).entries@.len() == old(self).entries@.len() - 1,
    {
        let n: usize = self.entries.len();
        let mut i: usize = 0;
        while i < n
            invariant
                i <= n == self.entries@.len(),
                self.entries@ == old(self).entries@,
                items_unique(self.entries@),
                forall|k: int| 0 <= k < i ==> (#[trigger] self.entries@[k]).serial != serial,
            decreases n - i,
        {
            if self.entries[i].serial == serial {
                proof {
                    lemma_lookup_found(self.entries@, i as int, serial);
                    lemma_lookup_item_remove(self.entries@, i as int, serial);
                    assert forall|s: u32| s != serial implies lookup_item(
                        self.entries@.remove(i as int),
                        s,
                    ) == lookup_item(self.entries@, s) by {
                        lemma_lookup_item_remove(self.entries@, i as int, s);
                    }
                    assert forall|p: int, q: int|
                        0 <= p < q < self.entries@.remove(i as int).len() implies (
                    #[trigger] self.entries@.remove(i as int)[p]).serial != (
                    #[trigger] self.entries@.remove(i as int)[q]).serial by {}
                }
                let it = self.entries.remove(i);
                return Some(it);
            }
            i = i + 1;
        }
        proof {
            lemma_lookup_item_index(self.entries@, serial);
            if self.get_spec(serial) is Some {
                let it = self.get_spec(serial)->Some_0;
                assert(self.entries@.contains(it));
                let k = choose|k: int|
                    0 <= k < self.entries@.len() && self.entries@[k] == it;
                assert(false);
            }
        }
        None
    }

    /// Stores `item` under its serial; any earlier entry with that serial
    /// must have been removed first.
    pub fn insert(&mut self, item: TopLevelItem)
        requires
            old(self).wf(),
            old(self).get_spec(item.serial) is None,
        ensures
            final(self).wf(),
            final(self).entries@ == old(self).entries@.push(item),
            final(self).get_spec(item.serial) == Some(item),
            forall|s: u32| s != item.serial ==> final(self).get_spec(s) == old(self).get_spec(s),
    {
        proof {
            lemma_lookup_item_index(self.entries@, item.serial);
            assert forall|s: u32| s != item.serial implies lookup_item(
                self.entries@.push(item),
                s,
            ) == lookup_item(self.entries@, s) by {
                lemma_lookup_item_push(self.entries@, item, s);
            }
            lemma_lookup_item_push(self.entries@, item, item.serial);
            assert forall|p: int, q: int|
                0 <= p < q < self.entries@.push(item).len() implies (
            #[trigger] self.entries@.push(item)[p]).serial != (#[trigger] self.entries@.push(
                item,
            )[q]).serial by {}
        }
        self.entries.push(item);
    }
}

/// The part list stored under the given serial, scanning from the front.
pub open spec fn lookup_parts(s: Seq<(u32, Vec<MultiItemPart>)>, serial: u32) -> Option<
    Seq<MultiItemPart>,
>
    decreases s.len(),
{
    if s.len() == 0 {
        None
    } else if s[0].0 == serial {
        Some(s[0].1@)
    } else {
        lookup_parts(s.drop_first(), serial)
    }
}

/// No serial occurs twice.
pub open spec fn parts_unique(s: Seq<(u32, Vec<MultiItemPart>)>) -> bool {
    forall|i: int, j: int| 0 <= i < j < s.len() ==> (#[trigger] s[i]).0 != (#[trigger] s[j]).0
}

proof fn lemma_lookup_parts_index(s: Seq<(u32, Vec<MultiItemPart>)>, serial: u32)
    ensures
        lookup_parts(s, serial) is None ==> forall|i: int|
            0 <= i < s.len() ==> (#[trigger] s[i]).0 != serial,
    decreases s.len(),
{
    if s.len() > 0 {
        lemma_lookup_parts_index(s.drop_first(), serial);
        if s[0].0 != serial && lookup_parts(s, serial) is None {
            assert forall|i: int| 0 <= i < s.len() implies (#[trigger] s[i]).0 != serial by {
                if i > 0 {
                    assert(s.drop_first()[i - 1] == s[i]);
                }
            }
        }
    }
}

#[verifier::spinoff_prover]
proof fn lemma_lookup_parts_push(
    s: Seq<(u32, Vec<MultiItemPart>)>,
    e: (u32, Vec<MultiItemPart>),
    serial: u32,
)
    requires
        lookup_parts(s, e.0) is None,
    ensures
        serial == e.0 ==> lookup_parts(s.push(e), serial) == Some(e.1@),
        serial != e.0 ==> lookup_parts(s.push(e), serial) == lookup_parts(s, serial),
    decreases s.len(),
{
    if s.len() == 0 {
        assert(s.push(e)[0] == e);
        assert(s.push(e).drop_first() =~= Seq::<(u32, Vec<MultiItemPart>)>::empty());
        if serial != e.0 {
            assert(lookup_parts(s.push(e), serial) == lookup_parts(
                s.push(e).drop_first(),
                serial,
            ));
            assert(lookup_parts(Seq::<(u32, Vec<MultiItemPart>)>::empty(), serial) is None);
        }
    } else {
        assert(s.push(e)[0] == s[0]);
        assert(s.push(e).drop_first() =~= s.drop_first().push(e));
        lemma_lookup_parts_push(s.drop_first(), e, serial);
    }
}

proof fn lemma_lookup_parts_remove(s: Seq<(u32, Vec<MultiItemPart>)>, i: int, serial: u32)
    requires
        0 <= i < s.len(),
        parts_unique(s),
    ensures
        serial == s[i].0 ==> lookup_parts(s.remove(i), serial) is None,
        serial != s[i].0 ==> lookup_parts(s.remove(i), serial) == lookup_parts(s, serial),
    decreases s.len(),
{
    if serial == s[i].0 {
        lemma_lookup_parts_index(s.remove(i), serial);
        if lookup_parts(s.remove(i), serial) is Some {
            lemma_lookup_parts_found_converse(s.remove(i), serial);
            let k = choose|k: int| 0 <= k < s.remove(i).len() && (#[trigger] s.remove(i)[k]).0
                == serial;
            if k < i {
                assert(s[k].0 == serial);
            } else {
                assert(s[k + 1] == s.remove(i)[k]);
            }
            assert(false);
        }
    } else {
        if i == 0 {
            assert(s.remove(0) =~= s.drop_first());
        } else {
            assert(s.remove(i).drop_first() =~= s.drop_first().remove(i - 1));
            lemma_lookup_parts_remove(s.drop_first(), i - 1, serial);
        }
    }
}

/// A successful lookup means some entry carries the serial.
proof fn lemma_lookup_parts_found_converse(s: Seq<(u32, Vec<MultiItemPart>)>, serial: u32)
    requires
        lookup_parts(s, serial) is Some,
    ensures
        exists|k: int| 0 <= k < s.len() && (#[trigger] s[k]).0 == serial,
    decreases s.len(),
{
    if s.len() > 0 && s[0].0 != serial {
        lemma_lookup_parts_found_converse(s.drop_first(), serial);
        let k = choose|k: int| 0 <= k < s.drop_first().len() && (#[trigger] s.drop_first()[k]).0
            == serial;
        assert(s[k + 1] == s.drop_first()[k]);
        assert((s[k + 1]).0 == serial);
    }
}

proof fn lemma_lookup_parts_found(s: Seq<(u32, Vec<MultiItemPart>)>, i: int, serial: u32)
    requires
        0 <= i < s.len(),
        s[i].0 == serial,
        forall|k: int| 0 <= k < i ==> (#[trigger] s[k]).0 != serial,
    ensures
        lookup_parts(s, serial) == Some(s[i].1@),
    decreases s.len(),
{
    if i > 0 {
        assert forall|k: int| 0 <= k < i - 1 implies (#[trigger] s.drop_first()[k]).0
            != serial by {
            assert(s.drop_first()[k] == s[k + 1]);
        }
        assert(s.drop_first()[i - 1] == s[i]);
        lemma_lookup_parts_found(s.drop_first(), i - 1, serial);
    }
}

/// The caller-supplied part lists of custom multis, keyed by serial.
pub struct CustomMultis {
    pub entries: Vec<(u32, Vec<MultiItemPart>)>,
}

impl CustomMultis {
    pub open spec fn wf(self) -> bool {
        parts_unique(self.entries@)
    }

    /// The part list stored under `serial`.
    pub open spec fn get_spec(self, serial: u32) -> Option<Seq<MultiItemPart>> {
        lookup_parts(self.entries@, serial)
    }

    pub fn new() -> (r: CustomMultis)
        ensures
            r.wf(),
            r.entries@.len() == 0,
            forall|s: u32| r.get_spec(s) is None,
    {
        CustomMultis { entries: Vec::new() }
    }

    pub fn get(&self, serial: u32) -> (r: Option<Vec<MultiItemPart>>)
        requires
            self.wf(),
        ensures
            r is Some <==> self.get_spec(serial) is Some,
            r matches Some(v) ==> Some(v@) == self.get_spec(serial),
    {
        let n: usize = self.entries.len();
        let mut i: usize = 0;
        while i < n
            invariant
                i <= n == self.entries@.len(),
                forall|k: int| 0 <= k < i ==> (#[trigger] self.entries@[k]).0 != serial,
            decreases n - i,
        {
            if self.entries[i].0 == serial {
                proof {
                    lemma_lookup_parts_found(self.entries@, i as int, serial);
                }
                let mut out: Vec<MultiItemPart> = Vec::new();
                let m: usize = self.entries[i].1.len();
                let mut k: usize = 0;
                while k < m
                    invariant
                        i < self.entries@.len(),
                        k <= m == self.entries@[i as int].1@.len(),
                        out@ == self.entries@[i as int].1@.take(k as int),
                    decreases m - k,
                {
                    out.push(self.entries[i].1[k]);
                    proof {
                        assert(out@ =~= self.entries@[i as int].1@.take(k + 1));
                    }
                    k = k + 1;
                }
                proof {
                    assert(out@ =~= self.entries@[i as int].1@);
                }
                return Some(out);
            }
            i = i + 1;
        }
        proof {
            if self.get_spec(serial) is Some {
                lemma_lookup_parts_found_converse(self.entries@, serial);
                assert(false);
            }
        }
        None
    }

    /// Removes the part list under `serial`, if any.
    pub fn remove(&mut self, serial: u32)
        requires
            old(self).wf(),
        ensures
            final(self).wf(),
            final(self).get_spec(serial) is None,
            forall|s: u32| s != serial ==> final(self).get_spec(s) == old(self).get_spec(s),
            old(self).get_spec(serial) is None ==> final(self).entries@ == old(self).entries@,
    {
        let n: usize = self.entries.len();
        let mut i: usize = 0;
        while i < n
            invariant
                i <= n == self.entries@.len(),
                self.entries@ == old(self).entries@,
                parts_unique(self.entries@),
                forall|k: int| 0 <= k < i ==> (#[trigger] self.entries@[k]).0 != serial,
            decreases n - i,
        {
            if self.entries[i].0 == serial {
                proof {
                    lemma_lookup_parts_found(self.entries@, i as int, serial);
                    lemma_lookup_parts_remove(self.entries@, i as int, serial);
                    assert forall|s: u32| s != serial implies lookup_parts(
                        self.entries@.remove(i as int),
                        s,
                    ) == lookup_parts(self.entries@, s) by {
                        lemma_lookup_parts_remove(self.entries@, i as int, s);
                    }
                    assert forall|p: int, q: int|
                        0 <= p < q < self.entries@.remove(i as int).len() implies (
                    #[trigger] self.entries@.remove(i as int)[p]).0 != (
                    #[trigger] self.entries@.remove(i as int)[q]).0 by {}
                }
                let _ = self.entries.remove(i);
                return ;
            }
            i = i + 1;
        }
        proof {
            if self.get_spec(serial) is Some {
                lemma_lookup_parts_found_converse(self.entries@, serial);
                assert(false);
            }
        }
    }

    /// Stores `parts` under `serial`, replacing any earlier list.
    pub fn insert(&mut self, serial: u32, parts: Vec<MultiItemPart>)
        requires
            old(self).wf(),
        ensures
            final(self).wf(),
            final(self).get_spec(serial) == Some(parts@),
            forall|s: u32| s != serial ==> final(self).get_spec(s) == old(self).get_spec(s),
    {
        self.remove(serial);
        proof {
            lemma_lookup_parts_push(self.entries@, (serial, parts), serial);
            assert forall|s: u32| s != serial implies lookup_parts(
                self.entries@.push((serial, parts)),
                s,
            ) == lookup_parts(self.entries@, s) by {
                lemma_lookup_parts_push(self.entries@, (serial, parts), s);
            }
            lemma_lookup_parts_index(self.entries@, serial);
            assert forall|p: int, q: int|
                0 <= p < q < self.entries@.push((serial, parts)).len() implies (
            #[trigger] self.entries@.push((serial, parts))[p]).0 != (
            #[trigger] self.entries@.push((serial, parts))[q]).0 by {}
        }
        self.entries.push((serial, parts));
    }

    /// Drops every stored part list.
    pub fn clear(&mut self)
        ensures
            final(self).wf(),
            final(self).entries@.len() == 0,
            forall|s: u32| final(self).get_spec(s) is None,
    {
        self.entries = Vec::new();
    }
}

/// The read-only data shared by every world, together with the mutable
/// custom multi part lists.
pub struct WorldData {
    pub colors: ColorData,
    pub tiledata: TileData,
    pub multis: Multi,
    pub custom_multis: CustomMultis,
}

impl WorldData {
    pub open spec fn wf(self) -> bool {
        &&& self.multis.wf()
        &&& self.custom_multis.wf()
    }

    /// Bundles the shared data, starting with no custom multis.
    pub fn new(colors: ColorData, tiledata: TileData, multis: Multi) -> (r: WorldData)
        requires
            multis.wf(),
        ensures
            r.wf(),
            r.colors == colors,
            r.tiledata == tiledata,
            r.multis == multis,
            forall|s: u32| r.custom_multis.get_spec(s) is None,
    {
        WorldData { colors, tiledata, multis, custom_multis: CustomMultis::new() }
    }
}


/// The top-level model: the shared data, the per-world dynamic worlds, and
/// the serial-keyed index kept in step with the overlays.
pub struct WorldModel {
    pub data: WorldData,
    pub worlds: Vec<Option<DynamicWorld>>,
    pub items_index: ItemsIndex,
}

impl WorldModel {
    /// A stored item can always be taken back out: its world exists and a
    /// multi's derived parts fit the machine ranges.
    pub open spec fn item_ok(self, it: TopLevelItem) -> bool {
        &&& (it.world as int) < self.worlds@.len()
        &&& self.worlds@[it.world as int] is Some
        &&& (it.graphic & 0x30000 != 0 ==> crate::world::multi_parts_fit(
            self.data,
            it.x,
            it.y,
            it.z,
            it.serial,
            it.graphic,
        ))
    }

    pub open spec fn wf(self) -> bool {
        &&& self.data.wf()
        &&& self.items_index.wf()
        &&& self.worlds@.len() <= 256
        &&& forall|w: int|
            0 <= w < self.worlds@.len() ==> (#[trigger] self.worlds@[w] matches Some(d) ==> d.wf())
        &&& forall|s: u32|
            #[trigger] self.items_index.get_spec(s) matches Some(it) ==> self.item_ok(it)
    }

    /// Assembles the model from the shared data and the worlds that were
    /// found present, with an empty index.
    pub fn new(data: WorldData, worlds: Vec<Option<DynamicWorld>>) -> (r: WorldModel)
        requires
            data.wf(),
            worlds@.len() <= 256,
            forall|w: int|
                0 <= w < worlds@.len() ==> (#[trigger] worlds@[w] matches Some(d) ==> d.wf()),
        ensures
            r.wf(),
            r.data == data,
            r.worlds == worlds,
            forall|s: u32| r.items_index.get_spec(s) is None,
    {
        let r = WorldModel { data, worlds, items_index: ItemsIndex::new() };
        r
    }

    /// The world stored under index `n`, if it was present.
    pub fn world(&self, n: u8) -> (r: Option<&DynamicWorld>)
        ensures
            (r is Some) == ((n as int) < self.worlds@.len() && self.worlds@[n as int] is Some),
            r matches Some(w) ==> Some(*w) == self.worlds@[n as int],
    {
        if (n as usize) < self.worlds.len() {
            match &self.worlds[n as usize] {
                Some(w) => Some(w),
                None => None,
            }
        } else {
            None
        }
    }

    /// The first present world in the wrapping scan `idx+1 .. len` then
    /// `0 ..= idx`; `idx` itself when no world is present at all.
    pub fn next_world_idx(&self, idx: u8) -> (r: u8)
        requires
            idx < 255,
            self.worlds@.len() <= 256,
        ensures
            ({
                let len = self.worlds@.len() as int;
                let stop = if (idx as int) + 1 < len {
                    (idx as int) + 1
                } else {
                    len
                };
                ||| ((idx as int) + 1 <= (r as int) < len && self.worlds@[r as int] is Some
                    && forall|j: int|
                    (idx as int) + 1 <= j < (r as int) ==> !(#[trigger] self.worlds@[j] is Some))
                ||| (0 <= (r as int) < stop && self.worlds@[r as int] is Some && (forall|j: int|
                    (idx as int) + 1 <= j < len ==> !(#[trigger] self.worlds@[j] is Some))
                    && (forall|j: int|
                    0 <= j < (r as int) ==> !(#[trigger] self.worlds@[j] is Some)))
                ||| (r == idx && (forall|j: int|
                    (idx as int) + 1 <= j < len ==> !(#[trigger] self.worlds@[j] is Some)) && (
                forall|j: int| 0 <= j < stop ==> !(#[trigger] self.worlds@[j] is Some)))
            }),
    {
        let len: usize = self.worlds.len();
        let mut i: usize = idx as usize + 1;
        while i < len
            invariant
                idx as int + 1 <= i,
                len == self.worlds@.len() <= 256,
                forall|j: int|
                    (idx as int) + 1 <= j < i ==> !(#[trigger] self.worlds@[j] is Some),
            decreases len - i,
        {
            if self.worlds[i].is_some() {
                return i as u8;
            }
            i = i + 1;
        }
        let mut k: usize = 0;
        let stop: usize = if (idx as usize) + 1 < len {
            idx as usize + 1
        } else {
            len
        };
        while k < stop
            invariant
                stop <= self.worlds@.len() <= 256,
                stop <= (idx as int) + 1,
                forall|j: int| 0 <= j < k ==> !(#[trigger] self.worlds@[j] is Some),
                forall|j: int|
                    (idx as int) + 1 <= j < self.worlds@.len() ==> !(#[trigger] self.worlds@[j]
                        is Some),
            decreases stop - k,
        {
            if self.worlds[k].is_some() {
                return k as u8;
            }
            k = k + 1;
        }
        proof {
            assert forall|j: int|
                (idx as int) + 1 <= j < self.worlds@.len() implies !(#[trigger] self.worlds@[j]
                is Some) by {}
        }
        idx
    }

    /// Removes the item stored under `serial`, taking its head and any
    /// multi parts out of its world's overlay.
    pub fn delete_item(&mut self, serial: u32)
        requires
            old(self).wf(),
        ensures
            final(self).wf(),
            final(self).data == old(self).data,
            final(self).worlds@.len() == old(self).worlds@.len(),
            final(self).items_index.get_spec(serial) is None,
            final(self).items_index.entries@.len() <= old(self).items_index.entries@.len(),
            old(self).items_index.get_spec(serial) is Some ==> final(self).items_index.entries@.len()
                < old(self).items_index.entries@.len(),
            forall|s: u32|
                s != serial ==> final(self).items_index.get_spec(s) == old(
                    self,
                ).items_index.get_spec(s),
            old(self).items_index.get_spec(serial) is None ==> final(self).worlds@ == old(
                self,
            ).worlds@,
            old(self).items_index.get_spec(serial) matches Some(it) ==> {
                &&& forall|w: int|
                    0 <= w < old(self).worlds@.len() && w != it.world as int
                        ==> #[trigger] final(self).worlds@[w] == old(self).worlds@[w]
                &&& final(self).worlds@[it.world as int] matches Some(d2)
                &&& old(self).worlds@[it.world as int] matches Some(d1)
                &&& {
                    let d1 = old(self).worlds@[it.world as int]->Some_0;
                    let d2 = final(self).worlds@[it.world as int]->Some_0;
                    &&& d2.base == d1.base
                    &&& d2.overlay_blocks@.len() == d1.overlay_blocks@.len()
                    &&& forall|o: crate::tiles::DynamicWorldObject|
                        d2.contains_obj(o) <==> (d1.contains_obj(o)
                            && !crate::world::inserted_objs(
                            old(self).data,
                            it.x,
                            it.y,
                            it.z,
                            it.serial,
                            it.graphic,
                        ).contains(o))
                }
            },
    {
        let found = self.items_index.get(serial);
        match found {
            Some(it) => {
                let wi: usize = it.world as usize;
                match &mut self.worlds[wi] {
                    Some(d) => {
                        d.delete_item(&self.data, it.x, it.y, it.z, it.serial, it.graphic);
                    },
                    None => {
                        proof {
                            assert(false);
                        }
                    },
                }
                let _ = self.items_index.remove(serial);
            },
            None => {},
        }
    }

    /// Stores `item` under its serial: any earlier item with that serial
    /// leaves its world's overlay first, then the head (and a multi's
    /// parts) enter the overlay of the item's world.
    pub fn insert_item(&mut self, item: TopLevelItem)
        requires
            old(self).wf(),
            old(self).item_ok(item),
        ensures
            final(self).wf(),
            final(self).data == old(self).data,
            final(self).worlds@.len() == old(self).worlds@.len(),
            final(self).items_index.get_spec(item.serial) == Some(item),
            forall|s: u32|
                s != item.serial ==> final(self).items_index.get_spec(s) == old(
                    self,
                ).items_index.get_spec(s),
            forall|w: int|
                0 <= w < old(self).worlds@.len() ==> ((#[trigger] final(self).worlds@[w]) is Some
                    <==> old(self).worlds@[w] is Some),
            ({
                let old_it = old(self).items_index.get_spec(item.serial);
                forall|w: int|
                    0 <= w < old(self).worlds@.len() && w != item.world as int && (old_it is None
                        || (old_it->Some_0.world as int) != w)
                        ==> #[trigger] final(self).worlds@[w] == old(self).worlds@[w]
            }),
            final(self).worlds@[item.world as int] is Some,
            ({
                let d1 = old(self).worlds@[item.world as int]->Some_0;
                let d2 = final(self).worlds@[item.world as int]->Some_0;
                &&& d2.base == d1.base
                &&& d2.overlay_blocks@.len() == d1.overlay_blocks@.len()
            }),
            ({
                let old_it = old(self).items_index.get_spec(item.serial);
                let d1 = old(self).worlds@[item.world as int]->Some_0;
                let d2 = final(self).worlds@[item.world as int]->Some_0;
                let ins = crate::world::inserted_objs(
                    old(self).data,
                    item.x,
                    item.y,
                    item.z,
                    item.serial,
                    item.graphic,
                );
                &&& (old_it is None || (old_it->Some_0.world != item.world) ==> forall|
                    o: crate::tiles::DynamicWorldObject,
                |
                    #[trigger] d2.contains_obj(o) <==> (d1.contains_obj(o) || ins.contains(o)))
                &&& (old_it matches Some(oit) ==> (oit.world == item.world ==> {
                    let del = crate::world::inserted_objs(
                        old(self).data,
                        oit.x,
                        oit.y,
                        oit.z,
                        oit.serial,
                        oit.graphic,
                    );
                    forall|o: crate::tiles::DynamicWorldObject|
                        #[trigger] d2.contains_obj(o) <==> ((d1.contains_obj(o) && !del.contains(
                            o,
                        )) || ins.contains(o))
                }))
            }),
            ({
                let old_it = old(self).items_index.get_spec(item.serial);
                old_it matches Some(oit) ==> (oit.world != item.world ==> {
                    let do1 = old(self).worlds@[oit.world as int]->Some_0;
                    let do2 = final(self).worlds@[oit.world as int]->Some_0;
                    let del = crate::world::inserted_objs(
                        old(self).data,
                        oit.x,
                        oit.y,
                        oit.z,
                        oit.serial,
                        oit.graphic,
                    );
                    &&& old(self).worlds@[oit.world as int] is Some
                    &&& final(self).worlds@[oit.world as int] is Some
                    &&& do2.base == do1.base
                    &&& do2.overlay_blocks@.len() == do1.overlay_blocks@.len()
                    &&& forall|o: crate::tiles::DynamicWorldObject|
                        #[trigger] do2.contains_obj(o) <==> (do1.contains_obj(o) && !del.contains(
                            o,
                        ))
                })
            }),
    {
        self.delete_item(item.serial);
        let wi: usize = item.world as usize;
        match &mut self.worlds[wi] {
            Some(d) => {
                d.insert_item(&self.data, item.x, item.y, item.z, item.serial, item.graphic);
            },
            None => {
                proof {
                    assert(false);
                }
            },
        }
        self.items_index.insert(item);
    }

    /// Stores a custom multi: publishes its part list under the serial,
    /// then inserts the item as usual. The earlier item with that serial,
    /// if any, leaves the overlay before the list changes.
    pub fn insert_multi_item(&mut self, item: TopLevelItem, parts: &Vec<MultiItemPart>)
        requires
            old(self).wf(),
            (item.world as int) < old(self).worlds@.len(),
            old(self).worlds@[item.world as int] is Some,
            parts@.len() <= 0x1_0000,
            item.graphic & 0x10000 != 0 ==> crate::world::multi_parts_fit(
                old(self).data,
                item.x,
                item.y,
                item.z,
                item.serial,
                item.graphic,
            ),
        ensures
            final(self).wf(),
            final(self).worlds@.len() == old(self).worlds@.len(),
            final(self).items_index.get_spec(item.serial) == Some(item),
            forall|s: u32|
                s != item.serial ==> final(self).items_index.get_spec(s) == old(
                    self,
                ).items_index.get_spec(s),
            final(self).data.custom_multis.get_spec(item.serial) == Some(parts@),
            forall|s: u32|
                s != item.serial ==> final(self).data.custom_multis.get_spec(s) == old(
                    self,
                ).data.custom_multis.get_spec(s),
            final(self).data.colors == old(self).data.colors,
            final(self).data.tiledata == old(self).data.tiledata,
            final(self).data.multis == old(self).data.multis,
            forall|w: int|
                0 <= w < old(self).worlds@.len() ==> ((#[trigger] final(self).worlds@[w]) is Some
                    <==> old(self).worlds@[w] is Some),
            ({
                let old_it = old(self).items_index.get_spec(item.serial);
                forall|w: int|
                    0 <= w < old(self).worlds@.len() && w != item.world as int && (old_it is None
                        || (old_it->Some_0.world as int) != w)
                        ==> #[trigger] final(self).worlds@[w] == old(self).worlds@[w]
            }),
            final(self).worlds@[item.world as int] is Some,
            ({
                let d1 = old(self).worlds@[item.world as int]->Some_0;
                let d2 = final(self).worlds@[item.world as int]->Some_0;
                &&& d2.base == d1.base
                &&& d2.overlay_blocks@.len() == d1.overlay_blocks@.len()
            }),
            ({
                let old_it = old(self).items_index.get_spec(item.serial);
                let d1 = old(self).worlds@[item.world as int]->Some_0;
                let d2 = final(self).worlds@[item.world as int]->Some_0;
                let ins = crate::world::inserted_objs(
                    final(self).data,
                    item.x,
                    item.y,
                    item.z,
                    item.serial,
                    item.graphic,
                );
                &&& (old_it is None || (old_it->Some_0.world != item.world) ==> forall|
                    o: crate::tiles::DynamicWorldObject,
                |
                    #[trigger] d2.contains_obj(o) <==> (d1.contains_obj(o) || ins.contains(o)))
                &&& (old_it matches Some(oit) ==> (oit.world == item.world ==> {
                    let del = crate::world::inserted_objs(
                        old(self).data,
                        oit.x,
                        oit.y,
                        oit.z,
                        oit.serial,
                        oit.graphic,
                    );
                    forall|o: crate::tiles::DynamicWorldObject|
                        #[trigger] d2.contains_obj(o) <==> ((d1.contains_obj(o) && !del.contains(
                            o,
                        )) || ins.contains(o))
                }))
            }),
            ({
                let old_it = old(self).items_index.get_spec(item.serial);
                old_it matches Some(oit) ==> (oit.world != item.world ==> {
                    let do1 = old(self).worlds@[oit.world as int]->Some_0;
                    let do2 = final(self).worlds@[oit.world as int]->Some_0;
                    let del = crate::world::inserted_objs(
                        old(self).data,
                        oit.x,
                        oit.y,
                        oit.z,
                        oit.serial,
                        oit.graphic,
                    );
                    &&& old(self).worlds@[oit.world as int] is Some
                    &&& final(self).worlds@[oit.world as int] is Some
                    &&& do2.base == do1.base
                    &&& do2.overlay_blocks@.len() == do1.overlay_blocks@.len()
                    &&& forall|o: crate::tiles::DynamicWorldObject|
                        #[trigger] do2.contains_obj(o) <==> (do1.contains_obj(o) && !del.contains(
                            o,
                        ))
                })
            }),
    {
        self.delete_item(item.serial);
        let mut copied: Vec<MultiItemPart> = Vec::new();
        let n: usize = parts.len();
        let mut i: usize = 0;
        while i < n
            invariant
                i <= n == parts@.len(),
                copied@ == parts@.take(i as int),
            decreases n - i,
        {
            copied.push(parts[i]);
            proof {
                assert(copied@ =~= parts@.take(i + 1));
            }
            i = i + 1;
        }
        proof {
            assert(copied@ =~= parts@);
        }
        self.data.custom_multis.remove(item.serial);
        self.data.custom_multis.insert(item.serial, copied);
        proof {
            assert forall|s: u32| #[trigger] self.items_index.get_spec(s) is Some implies (
            WorldModel {
                data: self.data,
                worlds: self.worlds,
                items_index: self.items_index,
            }).item_ok(self.items_index.get_spec(s)->Some_0) by {
                let it = self.items_index.get_spec(s)->Some_0;
                lemma_lookup_item_index(self.items_index.entries@, s);
                assert(it.serial == s);
                if it.graphic & 0x10000 == 0 && it.graphic & 0x20000 != 0 && s != item.serial {
                    assert(self.data.custom_multis.get_spec(s) == old(
                        self,
                    ).data.custom_multis.get_spec(s));
                }
            }
        }
        let wi: usize = item.world as usize;
        match &mut self.worlds[wi] {
            Some(d) => {
                d.insert_item(&self.data, item.x, item.y, item.z, item.serial, item.graphic);
            },
            None => {
                proof {
                    assert(false);
                }
            },
        }
        self.items_index.insert(item);
    }


    /// The items of the rectangle in world `world`, each carrying the
    /// timestamp its index entry holds, or none where the index has no
    /// entry for its serial.
    pub fn query(
        &self,
        world: u8,
        left: isize,
        top: isize,
        right: isize,
        bottom: isize,
        items: &mut Vec<crate::api::Item>,
    )
        requires
            self.wf(),
            (world as int) < self.worlds@.len(),
            self.worlds@[world as int] is Some,
            -0x4000_0000 <= left <= 0x4000_0000,
            -0x4000_0000 <= top <= 0x4000_0000,
            -0x4000_0000 <= right <= 0x4000_0000,
            -0x4000_0000 <= bottom <= 0x4000_0000,
        ensures
            ({
                let d = self.worlds@[world as int]->Some_0;
                let found = d.area_items(
                    world,
                    crate::world::tdiv8(left as int),
                    DynamicWorld::area_nx(left as int, right as int),
                    crate::world::tdiv8(top as int),
                    DynamicWorld::area_nx(top as int, bottom as int),
                    left as int,
                    top as int,
                    right as int,
                    bottom as int,
                );
                final(items)@ == old(items)@ + Seq::new(
                    found.len(),
                    |k: int|
                        crate::api::Item {
                            timestamp: match self.items_index.get_spec(found[k].serial) {
                                Some(e) => Some(e.timestamp),
                                None => None,
                            },
                            ..found[k]
                        },
                )
            }),
    {
        let mut found: Vec<crate::api::Item> = Vec::new();
        match &self.worlds[world as usize] {
            Some(d) => {
                d.query_area_dynamic(world, left, top, right, bottom, &mut found);
            },
            None => {
                proof {
                    assert(false);
                }
            },
        }
        let ghost fs = found@;
        let n: usize = found.len();
        let mut i: usize = 0;
        while i < n
            invariant
                i <= n == fs.len(),
                found@ == fs,
                self.wf(),
                items@ == old(items)@ + Seq::new(
                    i as nat,
                    |k: int|
                        crate::api::Item {
                            timestamp: match self.items_index.get_spec(fs[k].serial) {
                                Some(e) => Some(e.timestamp),
                                None => None,
                            },
                            ..fs[k]
                        },
                ),
            decreases n - i,
        {
            let it = found[i];
            let ts: Option<u64> = match self.items_index.get(it.serial) {
                Some(e) => Some(e.timestamp),
                None => None,
            };
            items.push(
                crate::api::Item {
                    world: it.world,
                    serial: it.serial,
                    graphic: it.graphic,
                    x: it.x,
                    y: it.y,
                    z: it.z,
                    timestamp: ts,
                },
            );
            i = i + 1;
            proof {
                assert(items@ =~= old(items)@ + Seq::new(
                    i as nat,
                    |k: int|
                        crate::api::Item {
                            timestamp: match self.items_index.get_spec(fs[k].serial) {
                                Some(e) => Some(e.timestamp),
                                None => None,
                            },
                            ..fs[k]
                        },
                ));
            }
        }
    }

    /// Whether some indexed item of world `w` accounts for overlay object
    /// `o`: its head, or one of its multi parts.
    pub open spec fn stored_obj(self, w: int, o: crate::tiles::DynamicWorldObject) -> bool {
        exists|s: u32|
            {
                &&& (#[trigger] self.items_index.get_spec(s)) is Some
                &&& (self.items_index.get_spec(s)->Some_0.world as int) == w
                &&& crate::world::inserted_objs(
                    self.data,
                    self.items_index.get_spec(s)->Some_0.x,
                    self.items_index.get_spec(s)->Some_0.y,
                    self.items_index.get_spec(s)->Some_0.z,
                    self.items_index.get_spec(s)->Some_0.serial,
                    self.items_index.get_spec(s)->Some_0.graphic,
                ).contains(o)
            }
    }

    /// Deletes every indexed item — taking its head and multi parts out of
    /// its world's overlay — and drops every custom part list.
    pub fn clear_state(&mut self)
        requires
            old(self).wf(),
        ensures
            final(self).wf(),
            final(self).worlds@.len() == old(self).worlds@.len(),
            forall|s: u32| final(self).items_index.get_spec(s) is None,
            forall|s: u32| final(self).data.custom_multis.get_spec(s) is None,
            final(self).data.colors == old(self).data.colors,
            final(self).data.tiledata == old(self).data.tiledata,
            final(self).data.multis == old(self).data.multis,
            forall|w: int|
                0 <= w < old(self).worlds@.len() ==> ((#[trigger] final(self).worlds@[w]) is Some
                    <==> old(self).worlds@[w] is Some),
            forall|w: int|
                0 <= w < old(self).worlds@.len() && old(self).worlds@[w] is Some ==> {
                    let d1 = (#[trigger] old(self).worlds@[w])->Some_0;
                    let d2 = final(self).worlds@[w]->Some_0;
                    &&& d2.base == d1.base
                    &&& d2.overlay_blocks@.len() == d1.overlay_blocks@.len()
                    &&& forall|o: crate::tiles::DynamicWorldObject|
                        #[trigger] d2.contains_obj(o) <==> (d1.contains_obj(o) && !old(
                            self,
                        ).stored_obj(w, o))
                },
    {
        while self.items_index.entries.len() > 0
            invariant
                self.wf(),
                self.data == old(self).data,
                self.worlds@.len() == old(self).worlds@.len(),
                forall|s: u32|
                    (#[trigger] self.items_index.get_spec(s)) is Some
                        ==> self.items_index.get_spec(s) == old(self).items_index.get_spec(s),
                forall|w: int|
                    0 <= w < old(self).worlds@.len() ==> ((#[trigger] self.worlds@[w]) is Some
                        <==> old(self).worlds@[w] is Some),
                forall|w: int|
                    0 <= w < old(self).worlds@.len() && old(self).worlds@[w] is Some ==> {
                        let d1 = (#[trigger] old(self).worlds@[w])->Some_0;
                        let d2 = self.worlds@[w]->Some_0;
                        &&& d2.base == d1.base
                        &&& d2.overlay_blocks@.len() == d1.overlay_blocks@.len()
                        &&& forall|o: crate::tiles::DynamicWorldObject|
                            #[trigger] d2.contains_obj(o) <==> (d1.contains_obj(o) && !removed_obj(
                                *old(self),
                                self.items_index,
                                w,
                                o,
                            ))
                    },
            decreases self.items_index.entries@.len(),
        {
            let serial: u32 = self.items_index.entries[0].serial;
            proof {
                assert(lookup_item(self.items_index.entries@, serial) is Some);
            }
            let ghost pre = *self;
            self.delete_item(serial);
            proof {
                let m0 = *old(self);
                let it0 = m0.items_index.get_spec(serial)->Some_0;
                assert(pre.items_index.get_spec(serial) == m0.items_index.get_spec(serial));
                assert forall|w: int|
                    0 <= w < m0.worlds@.len() && m0.worlds@[w] is Some implies {
                    let d1 = (#[trigger] m0.worlds@[w])->Some_0;
                    let d2 = self.worlds@[w]->Some_0;
                    &&& d2.base == d1.base
                    &&& d2.overlay_blocks@.len() == d1.overlay_blocks@.len()
                    &&& forall|o: crate::tiles::DynamicWorldObject|
                        #[trigger] d2.contains_obj(o) <==> (d1.contains_obj(o) && !removed_obj(
                            m0,
                            self.items_index,
                            w,
                            o,
                        ))
                } by {
                    let d1 = m0.worlds@[w]->Some_0;
                    let dp = pre.worlds@[w]->Some_0;
                    let d2 = self.worlds@[w]->Some_0;
                    let del = crate::world::inserted_objs(
                        pre.data,
                        it0.x,
                        it0.y,
                        it0.z,
                        it0.serial,
                        it0.graphic,
                    );
                    assert forall|o: crate::tiles::DynamicWorldObject|
                        #[trigger] d2.contains_obj(o) <==> (d1.contains_obj(o) && !removed_obj(
                            m0,
                            self.items_index,
                            w,
                            o,
                        )) by {
                        if d2.contains_obj(o) {
                            // nothing removed so far accounts for a surviving object
                            assert(dp.contains_obj(o));
                            assert(d1.contains_obj(o));
                            if removed_obj(m0, self.items_index, w, o) {
                                let s = choose|s: u32|
                                    {
                                        &&& (#[trigger] m0.items_index.get_spec(s)) is Some
                                        &&& self.items_index.get_spec(s) is None
                                        &&& (m0.items_index.get_spec(s)->Some_0.world as int) == w
                                        &&& crate::world::inserted_objs(
                                            m0.data,
                                            m0.items_index.get_spec(s)->Some_0.x,
                                            m0.items_index.get_spec(s)->Some_0.y,
                                            m0.items_index.get_spec(s)->Some_0.z,
                                            m0.items_index.get_spec(s)->Some_0.serial,
                                            m0.items_index.get_spec(s)->Some_0.graphic,
                                        ).contains(o)
                                    };
                                if s == serial {
                                    assert(w == it0.world as int);
                                    assert(!del.contains(o));
                                    assert(false);
                                } else {
                                    assert(pre.items_index.get_spec(s)
                                        == self.items_index.get_spec(s));
                                    assert(removed_obj(m0, pre.items_index, w, o));
                                    assert(false);
                                }
                            }
                        }
                        if d1.contains_obj(o) && !removed_obj(m0, self.items_index, w, o) {
                            // it survived every earlier removal, and this one
                            if removed_obj(m0, pre.items_index, w, o) {
                                let s = choose|s: u32|
                                    {
                                        &&& (#[trigger] m0.items_index.get_spec(s)) is Some
                                        &&& pre.items_index.get_spec(s) is None
                                        &&& (m0.items_index.get_spec(s)->Some_0.world as int) == w
                                        &&& crate::world::inserted_objs(
                                            m0.data,
                                            m0.items_index.get_spec(s)->Some_0.x,
                                            m0.items_index.get_spec(s)->Some_0.y,
                                            m0.items_index.get_spec(s)->Some_0.z,
                                            m0.items_index.get_spec(s)->Some_0.serial,
                                            m0.items_index.get_spec(s)->Some_0.graphic,
                                        ).contains(o)
                                    };
                                assert(self.items_index.get_spec(s) is None);
                                assert(false);
                            }
                            assert(dp.contains_obj(o));
                            if w == it0.world as int && del.contains(o) {
                                assert(removed_obj(m0, self.items_index, w, o)) by {
                                    assert((#[trigger] m0.items_index.get_spec(serial)) is Some
                                        && self.items_index.get_spec(serial) is None && (
                                    m0.items_index.get_spec(serial)->Some_0.world as int) == w
                                        && crate::world::inserted_objs(
                                        m0.data,
                                        m0.items_index.get_spec(serial)->Some_0.x,
                                        m0.items_index.get_spec(serial)->Some_0.y,
                                        m0.items_index.get_spec(serial)->Some_0.z,
                                        m0.items_index.get_spec(serial)->Some_0.serial,
                                        m0.items_index.get_spec(serial)->Some_0.graphic,
                                    ).contains(o));
                                }
                                assert(false);
                            }
                            assert(d2.contains_obj(o));
                        }
                    }
                }
            }
        }
        proof {
            assert forall|s: u32| self.items_index.get_spec(s) is None by {
                lemma_lookup_item_index(self.items_index.entries@, s);
            }
            assert forall|w: int|
                0 <= w < old(self).worlds@.len() && old(self).worlds@[w] is Some implies {
                let d1 = (#[trigger] old(self).worlds@[w])->Some_0;
                let d2 = self.worlds@[w]->Some_0;
                forall|o: crate::tiles::DynamicWorldObject|
                    #[trigger] d2.contains_obj(o) <==> (d1.contains_obj(o) && !old(
                        self,
                    ).stored_obj(w, o))
            } by {
                let d1 = old(self).worlds@[w]->Some_0;
                let d2 = self.worlds@[w]->Some_0;
                assert forall|o: crate::tiles::DynamicWorldObject|
                    #[trigger] d2.contains_obj(o) <==> (d1.contains_obj(o) && !old(
                        self,
                    ).stored_obj(w, o)) by {
                    assert(removed_obj(*old(self), self.items_index, w, o) <==> old(
                        self,
                    ).stored_obj(w, o));
                }
            }
        }
        self.data.custom_multis.clear();
        proof {
            assert forall|s: u32| #[trigger] self.items_index.get_spec(s) is Some implies (
            WorldModel {
                data: self.data,
                worlds: self.worlds,
                items_index: self.items_index,
            }).item_ok(self.items_index.get_spec(s)->Some_0) by {}
        }
    }
}

/// Whether an object was accounted for by an item of world `w` indexed at
/// the start but no longer indexed now.
spec fn removed_obj(
    m0: WorldModel,
    idx: ItemsIndex,
    w: int,
    o: crate::tiles::DynamicWorldObject,
) -> bool {
    exists|s: u32|
        {
            &&& (#[trigger] m0.items_index.get_spec(s)) is Some
            &&& idx.get_spec(s) is None
            &&& (m0.items_index.get_spec(s)->Some_0.world as int) == w
            &&& crate::world::inserted_objs(
                m0.data,
                m0.items_index.get_spec(s)->Some_0.x,
                m0.items_index.get_spec(s)->Some_0.y,
                m0.items_index.get_spec(s)->Some_0.z,
                m0.items_index.get_spec(s)->Some_0.serial,
                m0.items_index.get_spec(s)->Some_0.graphic,
            ).contains(o)
        }
}

/// If entry `i` matches and nothing before it does, the lookup finds it.
proof fn lemma_lookup_found(s: Seq<TopLevelItem>, i: int, serial: u32)
    requires
        0 <= i < s.len(),
        s[i].serial == serial,
        forall|k: int| 0 <= k < i ==> (#[trigger] s[k]).serial != serial,
    ensures
        lookup_item(s, serial) == Some(s[i]),
    decreases s.len(),
{
    if i > 0 {
        assert forall|k: int| 0 <= k < i - 1 implies (#[trigger] s.drop_first()[k]).serial
            != serial by {
            assert(s.drop_first()[k] == s[k + 1]);
        }
        assert(s.drop_first()[i - 1] == s[i]);
        lemma_lookup_found(s.drop_first(), i - 1, serial);
    }
}

} // verus!
