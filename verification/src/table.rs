//! A table from aliases to indices, kept in the order of the aliases and
//! searched by halving.

use crate::alias::{AliasKey, ArgAlias};
use crate::order::{key_before, lemma_keys_apart, lemma_keys_chain};
use vstd::prelude::*;

verus! {

/// The map that a list of entries stands for; of two entries with one
/// alias the later one counts.
pub open spec fn table_map(entries: Seq<(ArgAlias, usize)>) -> Map<AliasKey, usize>
    decreases entries.len(),
{
    if entries.len() == 0 {
        Map::empty()
    } else {
        table_map(entries.drop_last()).insert(entries.last().0@, entries.last().1)
    }
}

/// Whether the aliases of the entries rise strictly from left to right.
pub open spec fn rising(entries: Seq<(ArgAlias, usize)>) -> bool {
    forall|x: int, y: int|
        0 <= x < y < entries.len() ==> key_before(
            (#[trigger] entries[x]).0@,
            (#[trigger] entries[y]).0@,
        )
}

/// Whether some entry has the alias `key`.
pub open spec fn has_entry(entries: Seq<(ArgAlias, usize)>, key: AliasKey) -> bool {
    exists|e: int| 0 <= e < entries.len() && (#[trigger] entries[e]).0@ == key
}

pub proof fn lemma_map_keys(entries: Seq<(ArgAlias, usize)>, key: AliasKey)
    ensures
        table_map(entries).contains_key(key) <==> has_entry(entries, key),
    decreases entries.len(),
{
    if entries.len() > 0 {
        let front = entries.drop_last();
        lemma_map_keys(front, key);
        if has_entry(front, key) {
            let e = choose|e: int| 0 <= e < front.len() && (#[trigger] front[e]).0@ == key;
            assert(entries[e].0@ == key);
        }
        if has_entry(entries, key) {
            let e = choose|e: int| 0 <= e < entries.len() && (#[trigger] entries[e]).0@ == key;
            if e < front.len() {
                assert(front[e].0@ == key);
            }
        }
        if entries.last().0@ == key {
            assert(entries[entries.len() - 1].0@ == key);
        }
    }
}

pub proof fn lemma_map_value(entries: Seq<(ArgAlias, usize)>, e: int)
    requires
        rising(entries),
        0 <= e < entries.len(),
    ensures
        table_map(entries).contains_key(entries[e].0@),
        table_map(entries)[entries[e].0@] == entries[e].1,
    decreases entries.len(),
{
    let front = entries.drop_last();
    let last = entries.len() - 1;
    if e < last {
        assert(rising(front)) by {
            assert forall|x: int, y: int| 0 <= x < y < front.len() implies key_before(
                (#[trigger] front[x]).0@,
                (#[trigger] front[y]).0@,
            ) by {
                assert(front[x] == entries[x] && front[y] == entries[y]);
            }
        }
        lemma_map_value(front, e);
        assert(front[e] == entries[e]);
        assert(key_before(entries[e].0@, entries[last].0@));
        lemma_keys_apart(entries[e].0@, entries[last].0@);
    }
}

pub proof fn lemma_map_insert(entries: Seq<(ArgAlias, usize)>, at: int, entry: (ArgAlias, usize))
    requires
        0 <= at <= entries.len(),
        !has_entry(entries, entry.0@),
    ensures
        table_map(entries.insert(at, entry)) == table_map(entries).insert(entry.0@, entry.1),
    decreases entries.len(),
{
    let longer = entries.insert(at, entry);
    if at == entries.len() {
        assert(longer.drop_last() == entries);
    } else {
        let front = entries.drop_last();
        assert(longer.drop_last() == front.insert(at, entry));
        assert(longer.last() == entries.last());
        assert(!has_entry(front, entry.0@)) by {
            if has_entry(front, entry.0@) {
                let e = choose|e: int| 0 <= e < front.len() && (#[trigger] front[e]).0@ == entry.0@;
                assert(entries[e].0@ == entry.0@);
            }
        }
        lemma_map_insert(front, at, entry);
        assert(entries[entries.len() - 1].0@ != entry.0@);
        assert(table_map(front).insert(entry.0@, entry.1).insert(
            entries.last().0@,
            entries.last().1,
        ) == table_map(front).insert(entries.last().0@, entries.last().1).insert(
            entry.0@,
            entry.1,
        ));
    }
}

/// Aliases with an index each, in the order of the aliases.
pub struct AliasTable {
    entries: Vec<(ArgAlias, usize)>,
}

impl View for AliasTable {
    type V = Map<AliasKey, usize>;

    closed spec fn view(&self) -> Map<AliasKey, usize> {
        table_map(self.entries@)
    }
}

impl AliasTable {
    /// Whether the entries are in order, so that halving finds them.
    pub closed spec fn wf(&self) -> bool {
        rising(self.entries@)
    }

    /// A table without entries.
    pub fn new() -> (r: Self)
        ensures
            r.wf(),
            r@ == Map::<AliasKey, usize>::empty(),
    {
        AliasTable { entries: Vec::new() }
    }

    /// Searches the entries by halving: the place of `alias`, or the place
    /// at which it would have to stand.
    fn search(&self, alias: &ArgAlias) -> (r: Result<usize, usize>)
        requires
            self.wf(),
        ensures
            match r {
                Ok(e) => e < self.entries@.len() && self.entries@[e as int].0@ == alias@,
                Err(at) => at <= self.entries@.len() && !has_entry(self.entries@, alias@) && rising(
                    self.entries@.insert(at as int, (*alias, 0usize)),
                ),
            },
    {
        let ghost entries = self.entries@;
        let ghost key = alias@;
        let mut low: usize = 0;
        let mut high: usize = self.entries.len();
        while low < high
            invariant
                entries == self.entries@,
                key == alias@,
                rising(entries),
                low <= high <= entries.len(),
                forall|x: int| 0 <= x < low ==> key_before((#[trigger] entries[x]).0@, key),
                forall|x: int| high <= x < entries.len() ==> key_before(key, (#[trigger] entries[x]).0@),
            decreases high - low,
        {
            let middle = low + (high - low) / 2;
            let ghost here = entries[middle as int].0@;
            if self.entries[middle].0.before(alias) {
                assert forall|x: int| 0 <= x < middle + 1 implies key_before(
                    (#[trigger] entries[x]).0@,
                    key,
                ) by {
                    if x < middle {
                        assert(key_before(entries[x].0@, entries[middle as int].0@));
                        lemma_keys_chain(entries[x].0@, here, key);
                    }
                }
                low = middle + 1;
            } else if alias.before(&self.entries[middle].0) {
                assert forall|x: int| middle <= x < entries.len() implies key_before(
                    key,
                    (#[trigger] entries[x]).0@,
                ) by {
                    if x > middle {
                        assert(key_before(entries[middle as int].0@, entries[x].0@));
                        lemma_keys_chain(key, here, entries[x].0@);
                    }
                }
                high = middle;
            } else {
                proof {
                    lemma_keys_apart(here, key);
                }
                return Ok(middle);
            }
        }
        proof {
            assert(!has_entry(entries, key)) by {
                if has_entry(entries, key) {
                    let e = choose|e: int| 0 <= e < entries.len() && (#[trigger] entries[e]).0@ == key;
                    lemma_keys_apart(key, key);
                }
            }
            let longer = entries.insert(low as int, (*alias, 0usize));
            assert forall|x: int, y: int| 0 <= x < y < longer.len() implies key_before(
                (#[trigger] longer[x]).0@,
                (#[trigger] longer[y]).0@,
            ) by {
                if x < low && y > low {
                    assert(key_before(entries[x].0@, entries[y - 1].0@));
                } else if x > low {
                    assert(key_before(entries[x - 1].0@, entries[y - 1].0@));
                } else if y < low {
                    assert(key_before(entries[x].0@, entries[y].0@));
                } else if x == low {
                    assert(key_before(key, entries[y - 1].0@));
                } else {
                    assert(key_before(entries[x].0@, key));
                }
            }
        }
        Err(low)
    }

    /// The index that the table holds for `alias`.
    pub fn get(&self, alias: &ArgAlias) -> (r: Option<usize>)
        requires
            self.wf(),
        ensures
            r is Some <==> self@.contains_key(alias@),
            r matches Some(index) ==> self@[alias@] == index,
    {
        proof {
            lemma_map_keys(self.entries@, alias@);
        }
        match self.search(alias) {
            Ok(e) => {
                proof {
                    lemma_map_value(self.entries@, e as int);
                }
                Some(self.entries[e].1)
            },
            Err(_) => None,
        }
    }

    /// Enters `alias` with `index`, unless the table holds the alias already.
    pub fn insert_absent(&mut self, alias: ArgAlias, index: usize)
        requires
            old(self).wf(),
        ensures
            final(self).wf(),
            final(self)@ == if old(self)@.contains_key(alias@) {
                old(self)@
            } else {
                old(self)@.insert(alias@, index)
            },
    {
        proof {
            lemma_map_keys(self.entries@, alias@);
        }
        match self.search(&alias) {
            Ok(_) => {},
            Err(at) => {
                proof {
                    lemma_map_insert(self.entries@, at as int, (alias, index));
                    let shown = self.entries@.insert(at as int, (alias, 0usize));
                    let longer = self.entries@.insert(at as int, (alias, index));
                    assert forall|x: int, y: int| 0 <= x < y < longer.len() implies key_before(
                        (#[trigger] longer[x]).0@,
                        (#[trigger] longer[y]).0@,
                    ) by {
                        assert(key_before(shown[x].0@, shown[y].0@));
                    }
                }
                self.entries.insert(at, (alias, index));
            },
        }
    }
}

} // verus!
