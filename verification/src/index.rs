//! The alias index: every alias of every argument, each leading to the one
//! record of its argument.

use crate::alias::{AliasKey, AliasToArgMapper, ArgAlias, ArgInfo, ArgInfoView};
use crate::offsets::narrow_shorts;
use crate::table::AliasTable;
use crate::text::{byte_len, char_width, texts};
use vstd::prelude::*;

verus! {

/// The arguments as mathematical values.
pub open spec fn infos(args: Seq<ArgInfo>) -> Seq<ArgInfoView> {
    Seq::new(args.len(), |q: int| args[q]@)
}

/// Index of the first argument from `from` on that has the alias `key`.
pub open spec fn first_declaring(decls: Seq<ArgInfoView>, key: AliasKey, from: int) -> Option<int>
    decreases decls.len() - from,
{
    if from < 0 || from >= decls.len() {
        None
    } else if decls[from].declares(key) {
        Some(from)
    } else {
        first_declaring(decls, key, from + 1)
    }
}

/// What the aliases of `decls` resolve to: each alias that an argument has
/// leads to that argument, and to the first of them where several have it.
pub open spec fn resolved(decls: Seq<ArgInfoView>) -> Map<AliasKey, ArgInfoView> {
    Map::new(
        |key: AliasKey| first_declaring(decls, key, 0) is Some,
        |key: AliasKey| decls[first_declaring(decls, key, 0)->0],
    )
}

/// The table after the long names `longs` were entered for `index`, each
/// unless the table held it already.
pub open spec fn add_longs(table: Map<AliasKey, usize>, longs: Seq<Seq<char>>, index: usize) -> Map<
    AliasKey,
    usize,
>
    decreases longs.len(),
{
    if longs.len() == 0 {
        table
    } else {
        let earlier = add_longs(table, longs.drop_last(), index);
        let long = AliasKey::Long(longs.last());
        if earlier.contains_key(long) {
            earlier
        } else {
            earlier.insert(long, index)
        }
    }
}

/// The alias that the short name `name` is.
pub open spec fn short_key(name: char) -> AliasKey {
    AliasKey::Short(name)
}

/// The table after the short names `shorts` were entered for `index`, each
/// unless the table held it already.
pub open spec fn add_shorts(table: Map<AliasKey, usize>, shorts: Seq<char>, index: usize) -> Map<
    AliasKey,
    usize,
>
    decreases shorts.len(),
{
    if shorts.len() == 0 {
        table
    } else {
        let earlier = add_shorts(table, shorts.drop_last(), index);
        let short = short_key(shorts.last());
        if earlier.contains_key(short) {
            earlier
        } else {
            earlier.insert(short, index)
        }
    }
}

/// The table after the names of all of `decls` were entered, argument by
/// argument, long names before short ones.
pub open spec fn registered(decls: Seq<ArgInfoView>) -> Map<AliasKey, usize>
    decreases decls.len(),
{
    if decls.len() == 0 {
        Map::empty()
    } else {
        let index = (decls.len() - 1) as usize;
        add_shorts(
            add_longs(registered(decls.drop_last()), decls.last().longs, index),
            decls.last().shorts,
            index,
        )
    }
}

/// Where `first_declaring` finds an argument, it is the first with that alias.
pub proof fn lemma_first_declaring(decls: Seq<ArgInfoView>, key: AliasKey, from: int)
    requires
        0 <= from,
    ensures
        match first_declaring(decls, key, from) {
            Some(q) => from <= q < decls.len() && decls[q].declares(key) && forall|e: int|
                from <= e < q ==> !(#[trigger] decls[e]).declares(key),
            None => forall|e: int| from <= e < decls.len() ==> !(#[trigger] decls[e]).declares(key),
        },
    decreases decls.len() - from,
{
    if from < decls.len() && !decls[from].declares(key) {
        lemma_first_declaring(decls, key, from + 1);
    }
}

pub proof fn lemma_add_longs(
    table: Map<AliasKey, usize>,
    longs: Seq<Seq<char>>,
    index: usize,
    key: AliasKey,
)
    ensures
        add_longs(table, longs, index).contains_key(key) <==> table.contains_key(key) || (key is Long
            && longs.contains(key->Long_0)),
        add_longs(table, longs, index).contains_key(key) ==> add_longs(table, longs, index)[key]
            == if table.contains_key(key) {
            table[key]
        } else {
            index
        },
    decreases longs.len(),
{
    if longs.len() > 0 {
        let front = longs.drop_last();
        lemma_add_longs(table, front, index, key);
        if key is Long {
            let name = key->Long_0;
            if front.contains(name) {
                let j = choose|j: int| 0 <= j < front.len() && front[j] == name;
                assert(longs[j] == name);
            }
            if longs.contains(name) {
                let j = choose|j: int| 0 <= j < longs.len() && longs[j] == name;
                if j < front.len() {
                    assert(front[j] == name);
                }
            }
            if longs.last() == name {
                assert(longs[longs.len() - 1] == name);
            }
        }
    }
}

pub proof fn lemma_add_shorts(
    table: Map<AliasKey, usize>,
    shorts: Seq<char>,
    index: usize,
    key: AliasKey,
)
    ensures
        add_shorts(table, shorts, index).contains_key(key) <==> table.contains_key(key) || (key is Short
            && shorts.contains(key->Short_0)),
        add_shorts(table, shorts, index).contains_key(key) ==> add_shorts(table, shorts, index)[key]
            == if table.contains_key(key) {
            table[key]
        } else {
            index
        },
    decreases shorts.len(),
{
    if shorts.len() > 0 {
        let front = shorts.drop_last();
        let last = short_key(shorts.last());
        lemma_add_shorts(table, front, index, key);
        if key is Short {
            let name = key->Short_0;
            if front.contains(name) {
                let j = choose|j: int| 0 <= j < front.len() && front[j] == name;
                assert(shorts[j] == name);
            }
            if shorts.contains(name) {
                let j = choose|j: int| 0 <= j < shorts.len() && shorts[j] == name;
                if j < front.len() {
                    assert(front[j] == name);
                }
            }
            if shorts.last() == name {
                assert(shorts[shorts.len() - 1] == name);
            }
        }
    }
}

/// The table holds exactly the aliases that some argument has, each with
/// the index of the first argument that has it.
pub proof fn lemma_registered(decls: Seq<ArgInfoView>, key: AliasKey)
    requires
        decls.len() <= usize::MAX,
    ensures
        registered(decls).contains_key(key) <==> first_declaring(decls, key, 0) is Some,
        registered(decls).contains_key(key) ==> registered(decls)[key] == first_declaring(
            decls,
            key,
            0,
        )->0,
    decreases decls.len(),
{
    lemma_first_declaring(decls, key, 0);
    if decls.len() > 0 {
        let front = decls.drop_last();
        let last = decls.len() - 1;
        let index = last as usize;
        lemma_registered(front, key);
        lemma_first_declaring(front, key, 0);
        let with_longs = add_longs(registered(front), decls.last().longs, index);
        lemma_add_longs(registered(front), decls.last().longs, index, key);
        lemma_add_shorts(with_longs, decls.last().shorts, index, key);
        match first_declaring(front, key, 0) {
            Some(q) => {
                assert(decls[q] == front[q]);
                assert forall|e: int| 0 <= e < q implies !(#[trigger] decls[e]).declares(key) by {
                    assert(decls[e] == front[e]);
                }
            },
            None => {
                assert forall|e: int| 0 <= e < last implies !(#[trigger] decls[e]).declares(key) by {
                    assert(decls[e] == front[e]);
                }
            },
        }
    }
}

/// Every index in the table is that of an argument.
pub proof fn lemma_registered_range(decls: Seq<ArgInfoView>, key: AliasKey)
    requires
        decls.len() <= usize::MAX,
        registered(decls).contains_key(key),
    ensures
        registered(decls)[key] < decls.len(),
        resolved(decls).contains_key(key),
        resolved(decls)[key] == decls[registered(decls)[key] as int],
{
    lemma_registered(decls, key);
    lemma_first_declaring(decls, key, 0);
}


/// Enters the names of one argument for `index`, long names before short
/// ones, each unless the table holds it already.
fn register_names(info: &ArgInfo, index: usize, table: &mut AliasTable)
    requires
        old(table).wf(),
    ensures
        final(table).wf(),
        final(table)@ == add_shorts(add_longs(old(table)@, info@.longs, index), info@.shorts, index),
{
    let mut j: usize = 0;
    assert(texts(info.longs@).take(0) == Seq::<Seq<char>>::empty());
    while j < info.longs.len()
        invariant
            j <= info.longs.len(),
            table.wf(),
            table@ == add_longs(old(table)@, texts(info.longs@).take(j as int), index),
        decreases info.longs.len() - j,
    {
        proof {
            let next = texts(info.longs@).take(j + 1);
            assert(next.drop_last() == texts(info.longs@).take(j as int));
            assert(next.last() == info.longs@[j as int]@);
        }
        table.insert_absent(ArgAlias::Long(info.longs[j].clone()), index);
        j = j + 1;
    }
    assert(texts(info.longs@).take(j as int) == info@.longs);
    let ghost with_longs = table@;
    let mut k: usize = 0;
    assert(info.shorts@.take(0) == Seq::<char>::empty());
    while k < info.shorts.len()
        invariant
            k <= info.shorts.len(),
            table.wf(),
            table@ == add_shorts(with_longs, info.shorts@.take(k as int), index),
        decreases info.shorts.len() - k,
    {
        proof {
            let next = info.shorts@.take(k + 1);
            assert(next.drop_last() == info.shorts@.take(k as int));
            assert(next.last() == info.shorts@[k as int]);
        }
        table.insert_absent(ArgAlias::Short(info.shorts[k]), index);
        k = k + 1;
    }
    assert(info.shorts@.take(k as int) == info@.shorts);
}

/// Builds the table of all names of `args`.
pub fn register_all(args: &Vec<ArgInfo>) -> (table: AliasTable)
    ensures
        table.wf(),
        table@ == registered(infos(args@)),
{
    let mut table = AliasTable::new();
    let mut q: usize = 0;
    assert(infos(args@).take(0) == Seq::<ArgInfoView>::empty());
    while q < args.len()
        invariant
            q <= args.len(),
            table.wf(),
            table@ == registered(infos(args@).take(q as int)),
        decreases args.len() - q,
    {
        proof {
            let next = infos(args@).take(q + 1);
            assert(next.drop_last() == infos(args@).take(q as int));
            assert(next.last() == args@[q as int]@);
        }
        register_names(&args[q], q, &mut table);
        q = q + 1;
    }
    assert(infos(args@).take(q as int) == infos(args@));
    table
}

/// Every alias of a list of arguments, each leading to the record of its
/// argument. Built once from the arguments and only read afterwards.
pub struct AliasIndex {
    args: Vec<ArgInfo>,
    table: AliasTable,
}

impl AliasIndex {
    #[verifier::type_invariant]
    spec fn inv(self) -> bool {
        &&& self.table.wf()
        &&& self.table@ == registered(infos(self.args@))
    }

    /// The arguments that the index was built from.
    pub closed spec fn decls(&self) -> Seq<ArgInfoView> {
        infos(self.args@)
    }

    /// Builds the index of `args`: every long and every short name of every
    /// argument is registered.
    pub fn build(args: Vec<ArgInfo>) -> (r: Self)
        ensures
            r.decls() == infos(args@),
    {
        let table = register_all(&args);
        AliasIndex { args, table }
    }

    /// The argument that `alias` leads to, or `None` where no argument has
    /// that alias.
    pub fn lookup(&self, alias: &ArgAlias) -> (r: Option<&ArgInfo>)
        ensures
            r is Some <==> resolved(self.decls()).contains_key(alias@),
            r matches Some(info) ==> info@ == resolved(self.decls())[alias@],
    {
        let count = self.args.len();
        proof {
            use_type_invariant(self);
            assert(infos(self.args@).len() == count);
            lemma_registered(infos(self.args@), alias@);
        }
        match self.table.get(alias) {
            Some(index) => {
                proof {
                    lemma_registered_range(infos(self.args@), alias@);
                }
                Some(&self.args[index])
            },
            None => None,
        }
    }
}

impl AliasIndex {
    /// Whether every short name in the index is one byte wide, as the scan
    /// counts it.
    pub fn has_narrow_shorts(&self) -> (r: bool)
        ensures
            r == narrow_shorts(resolved(self.decls())),
    {
        let ghost decls = infos(self.args@);
        let mut q: usize = 0;
        while q < self.args.len()
            invariant
                q <= self.args.len(),
                decls == infos(self.args@),
                forall|e: int, j: int|
                    0 <= e < q && 0 <= j < decls[e].shorts.len() ==> byte_len(
                        seq![#[trigger] decls[e].shorts[j]],
                    ) == 1,
            decreases self.args.len() - q,
        {
            let shorts = &self.args[q].shorts;
            let mut j: usize = 0;
            while j < shorts.len()
                invariant
                    j <= shorts.len(),
                    q < self.args.len(),
                    decls == infos(self.args@),
                    shorts@ == decls[q as int].shorts,
                    forall|e: int| 0 <= e < j ==> byte_len(seq![#[trigger] shorts@[e]]) == 1,
                decreases shorts.len() - j,
            {
                let name = shorts[j];
                if char_width(name) != 1 {
                    proof {
                        assert(decls[q as int].shorts[j as int] == name);
                        assert(decls[q as int].declares(short_key(name)));
                        lemma_first_declaring(decls, short_key(name), 0);
                        assert(resolved(decls).contains_key(short_key(name)));
                    }
                    return false;
                }
                j = j + 1;
            }
            q = q + 1;
        }
        proof {
            assert forall|name: char| #[trigger]
                resolved(decls).contains_key(short_key(name)) implies byte_len(seq![name]) == 1 by {
                lemma_first_declaring(decls, short_key(name), 0);
                let e = first_declaring(decls, short_key(name), 0)->0;
                let j = choose|j: int| 0 <= j < decls[e].shorts.len() && decls[e].shorts[j] == name;
                assert(byte_len(seq![decls[e].shorts[j]]) == 1);
            }
        }
        true
    }
}

impl AliasToArgMapper for AliasIndex {
    type SkipReason = &'static str;

    open spec fn args(&self) -> Map<AliasKey, ArgInfoView> {
        resolved(self.decls())
    }

    open spec fn derived(&self) -> Map<Seq<char>, Map<AliasKey, ArgInfoView>> {
        Map::empty()
    }

    fn get_arg(&self, alias: &ArgAlias) -> (r: Result<&ArgInfo, &'static str>)
        ensures
            r matches Err(reason) ==> reason@ == "Unknown alias"@,
    {
        match self.lookup(alias) {
            Some(info) => Ok(info),
            None => Err("Unknown alias"),
        }
    }

    /// A plain index has no subcommands.
    fn get_derived_mapper(&self, alias: &str) -> (r: Result<Self, &'static str>)
        ensures
            r matches Err(reason) ==> reason@ == "Unknown alias"@,
    {
        Err("Unknown alias")
    }
}

} // verus!
