//! What holds of every scan.

use crate::alias::{AliasKey, ArgInfoView};
use crate::lex::{
    is_masked, is_plain, is_short, lemma_long_bytes, lemma_short_bytes, long_name, long_value,
    names_long, short_cluster,
};
use crate::parse::ArgLocation;
use crate::scan::{
    all_reached, bump, find_target, hidden, located_under, part, scan, spaced_step, step, taken,
    walk, wanted, Hit, Step,
};
use crate::text::{
    byte_len, lemma_byte_len_split, lemma_chars_le_bytes, lemma_token_span,
    lemma_token_start_monotone, span_len,
    texts, token_start,
};
use vstd::prelude::*;

verus! {

/// How many of `hits` belong to target `p`.
pub open spec fn count_for(hits: Seq<Hit>, p: int) -> nat
    decreases hits.len(),
{
    if hits.len() == 0 {
        0
    } else {
        count_for(hits.drop_last(), p) + if hits.last().target == p {
            1nat
        } else {
            0nat
        }
    }
}

/// Whether every hit belongs to one of `n` targets.
pub open spec fn in_range(hits: Seq<Hit>, n: nat) -> bool {
    forall|k: int| 0 <= k < hits.len() ==> (#[trigger] hits[k]).target < n
}

/// Whether the counts stand for `n` targets and none is over the limit.
pub open spec fn counts_fit(counts: Seq<usize>, n: nat, limit: usize) -> bool {
    &&& counts.len() == n
    &&& n <= usize::MAX
    &&& forall|q: int| 0 <= q < n ==> #[trigger] counts[q] <= limit
}

/// Whether a step from `counts` added to each count what it found for that
/// target, and kept every count within the limit.
pub open spec fn step_counts(s: Step, counts: Seq<usize>, n: nat, limit: usize) -> bool {
    &&& counts_fit(s.counts, n, limit)
    &&& in_range(s.hits, n)
    &&& forall|q: int| 0 <= q < n ==> #[trigger] s.counts[q] == counts[q] + count_for(s.hits, q)
}

pub proof fn lemma_count_concat(a: Seq<Hit>, b: Seq<Hit>, p: int)
    ensures
        count_for(a + b, p) == count_for(a, p) + count_for(b, p),
    decreases b.len(),
{
    if b.len() == 0 {
        assert(a + b == a);
    } else {
        assert((a + b).drop_last() == a + b.drop_last());
        lemma_count_concat(a, b.drop_last(), p);
    }
}

pub proof fn lemma_count_one(hit: Hit, p: int)
    ensures
        count_for(seq![hit], p) == if hit.target == p {
            1nat
        } else {
            0nat
        },
{
    assert(seq![hit].drop_last() == Seq::<Hit>::empty());
    assert(count_for(Seq::<Hit>::empty(), p) == 0);
    assert(seq![hit].last() == hit);
}

/// Where `find_target` finds a target, it is the first of that name.
pub proof fn lemma_find_target(targets: Seq<Seq<char>>, id: Seq<char>, from: int)
    requires
        0 <= from,
    ensures
        match find_target(targets, id, from) {
            Some(p) => from <= p < targets.len() && targets[p] == id && forall|q: int|
                from <= q < p ==> targets[q] != id,
            None => forall|q: int| from <= q < targets.len() ==> targets[q] != id,
        },
    decreases targets.len() - from,
{
    if from < targets.len() && targets[from] != id {
        lemma_find_target(targets, id, from + 1);
    }
}

/// One more occurrence of a wanted target keeps the counts within the limit.
pub proof fn lemma_record(
    targets: Seq<Seq<char>>,
    counts: Seq<usize>,
    limit: usize,
    id: Seq<char>,
    location: ArgLocation,
)
    requires
        counts_fit(counts, targets.len(), limit),
        wanted(targets, counts, limit, id) is Some,
    ensures
        ({
            let p = wanted(targets, counts, limit, id)->0;
            let s = Step {
                hits: seq![Hit { target: p as usize, location }],
                extra: 0,
                cursor: 0,
                counts: bump(counts, p),
                unresolved: None,
            };
            &&& 0 <= p < targets.len()
            &&& targets[p] == id
            &&& counts[p] < limit
            &&& step_counts(s, counts, targets.len(), limit)
        }),
{
    lemma_find_target(targets, id, 0);
    let p = wanted(targets, counts, limit, id)->0;
    let hit = Hit { target: p as usize, location };
    assert forall|q: int| 0 <= q < targets.len() implies #[trigger] bump(counts, p)[q] == counts[q]
        + count_for(seq![hit], q) by {
        lemma_count_one(hit, q);
    }
}


/// A step without occurrences leaves the counts as they were.
pub proof fn lemma_idle(s: Step, counts: Seq<usize>, n: nat, limit: usize)
    requires
        counts_fit(counts, n, limit),
        s.hits == Seq::<Hit>::empty(),
        s.counts == counts,
    ensures
        step_counts(s, counts, n, limit),
{
}

/// A step in front of which one occurrence of a wanted target is put.
proof fn lemma_led(
    targets: Seq<Seq<char>>,
    counts: Seq<usize>,
    limit: usize,
    id: Seq<char>,
    location: ArgLocation,
    rest: Step,
)
    requires
        counts_fit(counts, targets.len(), limit),
        wanted(targets, counts, limit, id) is Some,
        step_counts(rest, bump(counts, wanted(targets, counts, limit, id)->0), targets.len(), limit),
    ensures
        ({
            let p = wanted(targets, counts, limit, id)->0;
            let hit = Hit { target: p as usize, location };
            step_counts(Step { hits: seq![hit] + rest.hits, ..rest }, counts, targets.len(), limit)
        }),
{
    lemma_record(targets, counts, limit, id, location);
    let p = wanted(targets, counts, limit, id)->0;
    let hit = Hit { target: p as usize, location };
    let s = Step { hits: seq![hit] + rest.hits, ..rest };
    assert forall|q: int| 0 <= q < targets.len() implies #[trigger] s.counts[q] == counts[q]
        + count_for(s.hits, q) by {
        lemma_count_concat(seq![hit], rest.hits, q);
        lemma_count_one(hit, q);
    }
}

/// The walk through a cluster counts what it finds.
pub proof fn lemma_walk_counts(
    table: Map<AliasKey, ArgInfoView>,
    tokens: Seq<Seq<char>>,
    masked: Seq<nat>,
    targets: Seq<Seq<char>>,
    limit: usize,
    i: int,
    start: nat,
    k: int,
    counts: Seq<usize>,
)
    requires
        counts_fit(counts, targets.len(), limit),
    ensures
        step_counts(
            walk(table, tokens, masked, targets, limit, i, start, k, counts),
            counts,
            targets.len(),
            limit,
        ),
    decreases short_cluster(tokens[i]).len() - k,
{
    let cluster = short_cluster(tokens[i]);
    let s = walk(table, tokens, masked, targets, limit, i, start, k, counts);
    if k < 0 || k >= cluster.len() || all_reached(counts, limit) || is_masked(tokens[i], hidden(masked, i), k) {
        lemma_idle(s, counts, targets.len(), limit);
    } else {
        let key = AliasKey::Short(cluster[k]);
        if !table.contains_key(key) {
            lemma_idle(s, counts, targets.len(), limit);
        } else {
            let info = table[key];
            let declaration = part(start, 1);
            let name = part((start + 1 + k) as nat, 1);
            match wanted(targets, counts, limit, info.id) {
                None => {
                    if !info.takes_values {
                        lemma_walk_counts(table, tokens, masked, targets, limit, i, start, k + 1, counts);
                    } else {
                        lemma_idle(s, counts, targets.len(), limit);
                    }
                },
                Some(p) => {
                    let location = s.hits[0].location;
                    lemma_record(targets, counts, limit, info.id, location);
                    if !info.takes_values {
                        lemma_walk_counts(
                            table,
                            tokens,
                            masked,
                            targets,
                            limit,
                            i,
                            start,
                            k + 1,
                            bump(counts, p),
                        );
                        let rest = walk(table, tokens, masked, targets, limit, i, start, k + 1, bump(counts, p));
                        lemma_led(
                            targets,
                            counts,
                            limit,
                            info.id,
                            ArgLocation::Discrete { declaration, name },
                            rest,
                        );
                    }
                },
            }
        }
    }
}

/// Every step counts what it finds.
pub proof fn lemma_step_counts(
    table: Map<AliasKey, ArgInfoView>,
    tokens: Seq<Seq<char>>,
    masked: Seq<nat>,
    targets: Seq<Seq<char>>,
    limit: usize,
    i: int,
    cursor: nat,
    counts: Seq<usize>,
)
    requires
        counts_fit(counts, targets.len(), limit),
    ensures
        step_counts(
            step(table, tokens, masked, targets, limit, i, cursor, counts),
            counts,
            targets.len(),
            limit,
        ),
{
    let s = step(table, tokens, masked, targets, limit, i, cursor, counts);
    if names_long(tokens[i], hidden(masked, i)) {
        let key = AliasKey::Long(long_name(tokens[i]));
        if table.contains_key(key) && wanted(targets, counts, limit, table[key].id) is Some {
            lemma_record(targets, counts, limit, table[key].id, s.hits[0].location);
        } else {
            lemma_idle(s, counts, targets.len(), limit);
        }
    } else if is_short(tokens[i]) {
        lemma_walk_counts(table, tokens, masked, targets, limit, i, cursor, 0, counts);
    } else {
        lemma_idle(s, counts, targets.len(), limit);
    }
}

/// From counts within the limit, the scan finds no target more often than
/// the limit leaves room for, and nothing but targets.
pub proof fn lemma_scan_counts(
    table: Map<AliasKey, ArgInfoView>,
    tokens: Seq<Seq<char>>,
    masked: Seq<nat>,
    targets: Seq<Seq<char>>,
    limit: usize,
    i: int,
    cursor: nat,
    counts: Seq<usize>,
)
    requires
        counts_fit(counts, targets.len(), limit),
    ensures
        scan(table, tokens, masked, targets, limit, i, cursor, counts) matches Ok(hits) ==> {
            &&& in_range(hits, targets.len())
            &&& forall|q: int|
                0 <= q < targets.len() ==> counts[q] + #[trigger] count_for(hits, q) <= limit
        },
    decreases
        if i < tokens.len() {
            tokens.len() - i
        } else {
            0
        },
{
    if i < 0 || i >= tokens.len() || all_reached(counts, limit) {
        assert forall|q: int| 0 <= q < targets.len() implies counts[q] + #[trigger] count_for(
            Seq::<Hit>::empty(),
            q,
        ) <= limit by {}
    } else {
        let s = step(table, tokens, masked, targets, limit, i, cursor, counts);
        lemma_step_counts(table, tokens, masked, targets, limit, i, cursor, counts);
        if s.unresolved is None {
            lemma_scan_counts(table, tokens, masked, targets, limit, i + 1 + s.extra, s.cursor, s.counts);
            match scan(table, tokens, masked, targets, limit, i + 1 + s.extra, s.cursor, s.counts) {
                Ok(rest) => {
                    let hits = s.hits + rest;
                    assert forall|q: int| 0 <= q < targets.len() implies counts[q]
                        + #[trigger] count_for(hits, q) <= limit by {
                        lemma_count_concat(s.hits, rest, q);
                        assert(s.counts[q] == counts[q] + count_for(s.hits, q));
                    }
                },
                Err(_) => {},
            }
        }
    }
}

/// No target is found more often than the limit allows, and every
/// occurrence found belongs to one of the targets.
pub proof fn lemma_at_most_limit(
    table: Map<AliasKey, ArgInfoView>,
    tokens: Seq<Seq<char>>,
    masked: Seq<nat>,
    targets: Seq<Seq<char>>,
    limit: usize,
)
    requires
        targets.len() <= usize::MAX,
    ensures
        located_under(table, tokens, masked, targets, limit) matches Ok(hits) ==> {
            &&& in_range(hits, targets.len())
            &&& forall|q: int| 0 <= q < targets.len() ==> #[trigger] count_for(hits, q) <= limit
        },
{
    let counts = Seq::new(targets.len(), |p: int| 0usize);
    lemma_scan_counts(table, tokens, masked, targets, limit, 0, 0, counts);
}


/// The first alias that the scan meets in `token`, of which the last
/// `masked` characters could not be decoded: the name of a long token, the
/// first name of a cluster.
pub open spec fn leading_alias(token: Seq<char>, masked: nat) -> Option<AliasKey> {
    if names_long(token, masked) {
        Some(AliasKey::Long(long_name(token)))
    } else if is_short(token) && !is_masked(token, masked, 0) {
        Some(AliasKey::Short(short_cluster(token)[0]))
    } else {
        None
    }
}

/// The length that the scan gives to the name of an occurrence spelled
/// `alias`: the bytes of a long name, one byte for a short name.
pub open spec fn alias_length(alias: AliasKey) -> nat {
    match alias {
        AliasKey::Long(name) => byte_len(name),
        AliasKey::Short(_) => 1,
    }
}

/// The length of the hyphens that lead an occurrence spelled `alias`.
pub open spec fn declaration_length(alias: AliasKey) -> nat {
    match alias {
        AliasKey::Long(_) => 2,
        AliasKey::Short(_) => 1,
    }
}

/// The cursor with which the scan reads token `i`, where it gets there from
/// token `j` without an occurrence, without an alias that no argument has,
/// and before every target was found as often as the limit allows.
pub open spec fn reaches(
    table: Map<AliasKey, ArgInfoView>,
    tokens: Seq<Seq<char>>,
    masked: Seq<nat>,
    targets: Seq<Seq<char>>,
    limit: usize,
    j: int,
    cursor: nat,
    counts: Seq<usize>,
    i: int,
) -> Option<nat>
    decreases i - j,
{
    if j == i {
        Some(cursor)
    } else if j < 0 || j > i || j >= tokens.len() || all_reached(counts, limit) {
        None
    } else {
        let s = step(table, tokens, masked, targets, limit, j, cursor, counts);
        if s.unresolved is None && s.hits.len() == 0 {
            reaches(table, tokens, masked, targets, limit, j + 1, s.cursor, counts, i)
        } else {
            None
        }
    }
}

/// Whether two lists of tokens are the same before token `i`, in their
/// texts and in what of them could not be decoded.
pub open spec fn same_before(
    with_a: Seq<Seq<char>>,
    masked_a: Seq<nat>,
    with_b: Seq<Seq<char>>,
    masked_b: Seq<nat>,
    i: int,
) -> bool {
    &&& 0 <= i <= with_a.len()
    &&& i <= with_b.len()
    &&& forall|q: int|
        0 <= q < i ==> #[trigger] with_a[q] == with_b[q] && hidden(masked_a, q) == hidden(
            masked_b,
            q,
        )
}

/// A walk that finds nothing reads its own token only: it takes no tokens,
/// leaves the counts as they were, and is the same in any other list that
/// has the same token at that place.
proof fn lemma_quiet_walk(
    table: Map<AliasKey, ArgInfoView>,
    with_a: Seq<Seq<char>>,
    masked_a: Seq<nat>,
    with_b: Seq<Seq<char>>,
    masked_b: Seq<nat>,
    targets: Seq<Seq<char>>,
    limit: usize,
    j: int,
    start: nat,
    k: int,
    counts: Seq<usize>,
)
    requires
        with_a[j] == with_b[j],
        hidden(masked_a, j) == hidden(masked_b, j),
        walk(table, with_a, masked_a, targets, limit, j, start, k, counts).hits.len() == 0,
    ensures
        walk(table, with_b, masked_b, targets, limit, j, start, k, counts) == walk(
            table,
            with_a,
            masked_a,
            targets,
            limit,
            j,
            start,
            k,
            counts,
        ),
        walk(table, with_a, masked_a, targets, limit, j, start, k, counts).extra == 0,
        walk(table, with_a, masked_a, targets, limit, j, start, k, counts).counts == counts,
    decreases short_cluster(with_a[j]).len() - k,
{
    let cluster = short_cluster(with_a[j]);
    if !(k < 0 || k >= cluster.len() || all_reached(counts, limit) || is_masked(
        with_a[j],
        hidden(masked_a, j),
        k,
    )) {
        let key = AliasKey::Short(cluster[k]);
        if table.contains_key(key) {
            let info = table[key];
            match wanted(targets, counts, limit, info.id) {
                None => {
                    if !info.takes_values {
                        lemma_quiet_walk(
                            table,
                            with_a,
                            masked_a,
                            with_b,
                            masked_b,
                            targets,
                            limit,
                            j,
                            start,
                            k + 1,
                            counts,
                        );
                    }
                },
                Some(p) => {
                    if !info.takes_values {
                        let rest = walk(
                            table,
                            with_a,
                            masked_a,
                            targets,
                            limit,
                            j,
                            start,
                            k + 1,
                            bump(counts, p),
                        );
                        let hit = Hit {
                            target: p as usize,
                            location: ArgLocation::Discrete {
                                declaration: part(start, 1),
                                name: part((start + 1 + k) as nat, 1),
                            },
                        };
                        assert((seq![hit] + rest.hits).len() >= 1);
                    }
                },
            }
        }
    }
}

/// A step that finds nothing reads its own token only: it takes no tokens,
/// leaves the counts as they were, and is the same in any other list that
/// has the same token at that place.
proof fn lemma_quiet_step(
    table: Map<AliasKey, ArgInfoView>,
    with_a: Seq<Seq<char>>,
    masked_a: Seq<nat>,
    with_b: Seq<Seq<char>>,
    masked_b: Seq<nat>,
    targets: Seq<Seq<char>>,
    limit: usize,
    j: int,
    cursor: nat,
    counts: Seq<usize>,
)
    requires
        with_a[j] == with_b[j],
        hidden(masked_a, j) == hidden(masked_b, j),
        step(table, with_a, masked_a, targets, limit, j, cursor, counts).hits.len() == 0,
    ensures
        step(table, with_b, masked_b, targets, limit, j, cursor, counts) == step(
            table,
            with_a,
            masked_a,
            targets,
            limit,
            j,
            cursor,
            counts,
        ),
        step(table, with_a, masked_a, targets, limit, j, cursor, counts).extra == 0,
        step(table, with_a, masked_a, targets, limit, j, cursor, counts).counts == counts,
{
    if names_long(with_a[j], hidden(masked_a, j)) {
    } else if is_short(with_a[j]) {
        lemma_quiet_walk(
            table,
            with_a,
            masked_a,
            with_b,
            masked_b,
            targets,
            limit,
            j,
            cursor,
            0,
            counts,
        );
    }
}

/// Where the scan gets to token `i` without an occurrence, what it finds
/// from the start on is what it finds from token `i` on, and the cursor has
/// not run ahead of that token.
pub proof fn lemma_reaches(
    table: Map<AliasKey, ArgInfoView>,
    tokens: Seq<Seq<char>>,
    masked: Seq<nat>,
    targets: Seq<Seq<char>>,
    limit: usize,
    j: int,
    cursor: nat,
    counts: Seq<usize>,
    i: int,
)
    requires
        0 <= j <= i <= tokens.len(),
        cursor <= token_start(tokens, j),
        token_start(tokens, tokens.len() as int) <= usize::MAX,
        reaches(table, tokens, masked, targets, limit, j, cursor, counts, i) is Some,
    ensures
        ({
            let there = reaches(table, tokens, masked, targets, limit, j, cursor, counts, i)->0;
            &&& there <= token_start(tokens, i)
            &&& scan(table, tokens, masked, targets, limit, j, cursor, counts) == scan(
                table,
                tokens,
                masked,
                targets,
                limit,
                i,
                there,
                counts,
            )
        }),
    decreases i - j,
{
    if j < i {
        let s = step(table, tokens, masked, targets, limit, j, cursor, counts);
        lemma_quiet_step(table, tokens, masked, tokens, masked, targets, limit, j, cursor, counts);
        lemma_step_in_order(table, tokens, masked, targets, limit, j, cursor, counts);
        lemma_reaches(table, tokens, masked, targets, limit, j + 1, s.cursor, counts, i);
        match scan(table, tokens, masked, targets, limit, j + 1, s.cursor, counts) {
            Ok(rest) => {
                assert(s.hits + rest == rest);
            },
            Err(_) => {},
        }
    }
}

/// Lists of tokens that are the same before token `i` bring the scan to
/// that token alike.
pub proof fn lemma_reaches_alike(
    table: Map<AliasKey, ArgInfoView>,
    with_a: Seq<Seq<char>>,
    masked_a: Seq<nat>,
    with_b: Seq<Seq<char>>,
    masked_b: Seq<nat>,
    targets: Seq<Seq<char>>,
    limit: usize,
    j: int,
    cursor: nat,
    counts: Seq<usize>,
    i: int,
)
    requires
        0 <= j <= i,
        same_before(with_a, masked_a, with_b, masked_b, i),
    ensures
        reaches(table, with_a, masked_a, targets, limit, j, cursor, counts, i) == reaches(
            table,
            with_b,
            masked_b,
            targets,
            limit,
            j,
            cursor,
            counts,
            i,
        ),
    decreases i - j,
{
    if j < i && !all_reached(counts, limit) {
        let s_a = step(table, with_a, masked_a, targets, limit, j, cursor, counts);
        let s_b = step(table, with_b, masked_b, targets, limit, j, cursor, counts);
        assert(with_a[j] == with_b[j]);
        if s_a.hits.len() == 0 {
            lemma_quiet_step(
                table,
                with_a,
                masked_a,
                with_b,
                masked_b,
                targets,
                limit,
                j,
                cursor,
                counts,
            );
        }
        if s_b.hits.len() == 0 {
            lemma_quiet_step(
                table,
                with_b,
                masked_b,
                with_a,
                masked_a,
                targets,
                limit,
                j,
                cursor,
                counts,
            );
        }
        if s_a.unresolved is None && s_a.hits.len() == 0 {
            lemma_reaches_alike(
                table,
                with_a,
                masked_a,
                with_b,
                masked_b,
                targets,
                limit,
                j + 1,
                s_a.cursor,
                counts,
                i,
            );
        }
    }
}

/// Where the scan reads a token that spells an alias of a wanted argument,
/// the first occurrence it finds from there lies at that token: it belongs
/// to the target that is wanted, its hyphens stand at the cursor and are
/// two for a long name and one for a short one, and its name is as long as
/// the alias that was typed. Where that occurrence brings every target to
/// the limit, it is the only one.
pub proof fn lemma_occurrence_at(
    table: Map<AliasKey, ArgInfoView>,
    tokens: Seq<Seq<char>>,
    masked: Seq<nat>,
    targets: Seq<Seq<char>>,
    limit: usize,
    i: int,
    cursor: nat,
    counts: Seq<usize>,
)
    requires
        0 <= i < tokens.len(),
        counts_fit(counts, targets.len(), limit),
        !all_reached(counts, limit),
        cursor + byte_len(tokens[i]) <= usize::MAX,
        leading_alias(tokens[i], hidden(masked, i)) matches Some(alias) && table.contains_key(alias)
            && wanted(targets, counts, limit, table[alias].id) is Some,
    ensures
        scan(table, tokens, masked, targets, limit, i, cursor, counts) matches Ok(hits) ==> {
            let alias = leading_alias(tokens[i], hidden(masked, i))->0;
            let p = wanted(targets, counts, limit, table[alias].id)->0;
            &&& hits.len() > 0
            &&& hits[0].target == p
            &&& 0 <= p < targets.len() && targets[p] == table[alias].id
            &&& hits[0].location.declaration() == part(cursor, declaration_length(alias))
            &&& hits[0].location.name().offset >= cursor + declaration_length(alias)
            &&& hits[0].location.name().length == alias_length(alias)
            &&& all_reached(bump(counts, p), limit) ==> hits.len() == 1
        },
{
    let alias = leading_alias(tokens[i], hidden(masked, i))->0;
    let id = table[alias].id;
    lemma_find_target(targets, id, 0);
    let p = wanted(targets, counts, limit, id)->0;
    let s = step(table, tokens, masked, targets, limit, i, cursor, counts);
    let after = bump(counts, p);
    if names_long(tokens[i], hidden(masked, i)) {
        lemma_long_bytes(tokens[i]);
        assert(s.hits.len() == 1);
        assert(s.counts == after);
    } else {
        lemma_short_bytes(tokens[i]);
        lemma_chars_le_bytes(short_cluster(tokens[i]));
        if !table[alias].takes_values {
            let rest = walk(table, tokens, masked, targets, limit, i, cursor, 1, after);
            assert(s.hits[0] == (Hit {
                target: p as usize,
                location: ArgLocation::Discrete {
                    declaration: part(cursor, 1),
                    name: part((cursor + 1) as nat, 1),
                },
            }));
            if all_reached(after, limit) {
                assert(rest.hits.len() == 0);
                assert(rest.counts == after);
            }
        } else {
            assert(s.hits.len() == 1);
            assert(s.counts == after);
        }
    }
    assert(s.hits[0].target == p);
    match scan(table, tokens, masked, targets, limit, i + 1 + s.extra, s.cursor, s.counts) {
        Ok(rest) => {
            assert((s.hits + rest)[0] == s.hits[0]);
        },
        Err(_) => {},
    }
}

/// Where the scan gets to token `i` without an occurrence and that token
/// spells an alias of a target's argument, the first occurrence found lies
/// at that token, with the hyphens and the name of the alias that was
/// typed. With one target and the limit one it is the only occurrence.
pub proof fn lemma_occurrence_spelled(
    table: Map<AliasKey, ArgInfoView>,
    tokens: Seq<Seq<char>>,
    masked: Seq<nat>,
    targets: Seq<Seq<char>>,
    limit: usize,
    i: int,
)
    requires
        0 <= i < tokens.len(),
        targets.len() <= usize::MAX,
        limit > 0,
        token_start(tokens, tokens.len() as int) <= usize::MAX,
        reaches(
            table,
            tokens,
            masked,
            targets,
            limit,
            0,
            0,
            Seq::new(targets.len(), |p: int| 0usize),
            i,
        ) is Some,
        leading_alias(tokens[i], hidden(masked, i)) matches Some(alias) && table.contains_key(alias)
            && find_target(targets, table[alias].id, 0) is Some,
    ensures
        located_under(table, tokens, masked, targets, limit) matches Ok(hits) ==> {
            let alias = leading_alias(tokens[i], hidden(masked, i))->0;
            let there = reaches(
                table,
                tokens,
                masked,
                targets,
                limit,
                0,
                0,
                Seq::new(targets.len(), |p: int| 0usize),
                i,
            )->0;
            &&& hits.len() > 0
            &&& hits[0].target == find_target(targets, table[alias].id, 0)->0
            &&& targets[hits[0].target as int] == table[alias].id
            &&& hits[0].location.declaration() == part(there, declaration_length(alias))
            &&& hits[0].location.name().offset >= there + declaration_length(alias)
            &&& hits[0].location.name().length == alias_length(alias)
            &&& limit == 1 && targets.len() == 1 ==> hits.len() == 1
        },
{
    let alias = leading_alias(tokens[i], hidden(masked, i))->0;
    let counts = Seq::new(targets.len(), |p: int| 0usize);
    let id = table[alias].id;
    lemma_find_target(targets, id, 0);
    let p = find_target(targets, id, 0)->0;
    assert(counts[p] == 0);
    assert(wanted(targets, counts, limit, id) == Some(p));
    assert(!all_reached(counts, limit));
    assert(token_start(tokens, 0) == 0);
    lemma_reaches(table, tokens, masked, targets, limit, 0, 0, counts, i);
    let there = reaches(table, tokens, masked, targets, limit, 0, 0, counts, i)->0;
    lemma_token_span(tokens, i);
    lemma_occurrence_at(table, tokens, masked, targets, limit, i, there, counts);
    if limit == 1 && targets.len() == 1 {
        assert(all_reached(bump(counts, p), limit)) by {
            assert(bump(counts, p)[0] == 1);
        }
    }
}

/// Two aliases of one argument can stand for each other. Take two lists of
/// tokens that are the same before token `i`, where the one spells an alias
/// of an argument and the other spells another alias of it, and let the
/// scan get to that token without an occurrence. Then the first occurrence
/// found in either list lies at that token and belongs to the same target;
/// the hyphens of both stand at the same offset, two for a long name and
/// one for a short one; and the name of each is as long as the alias that
/// was typed in its list.
pub proof fn lemma_aliases_interchangeable(
    table: Map<AliasKey, ArgInfoView>,
    with_a: Seq<Seq<char>>,
    masked_a: Seq<nat>,
    with_b: Seq<Seq<char>>,
    masked_b: Seq<nat>,
    targets: Seq<Seq<char>>,
    limit: usize,
    i: int,
)
    requires
        same_before(with_a, masked_a, with_b, masked_b, i),
        i < with_a.len(),
        i < with_b.len(),
        targets.len() <= usize::MAX,
        limit > 0,
        token_start(with_a, with_a.len() as int) <= usize::MAX,
        token_start(with_b, with_b.len() as int) <= usize::MAX,
        reaches(
            table,
            with_a,
            masked_a,
            targets,
            limit,
            0,
            0,
            Seq::new(targets.len(), |p: int| 0usize),
            i,
        ) is Some,
        leading_alias(with_a[i], hidden(masked_a, i)) matches Some(a) && table.contains_key(a),
        leading_alias(with_b[i], hidden(masked_b, i)) matches Some(b) && table.contains_key(b),
        table[leading_alias(with_a[i], hidden(masked_a, i))->0].id == table[leading_alias(
            with_b[i],
            hidden(masked_b, i),
        )->0].id,
        find_target(targets, table[leading_alias(with_a[i], hidden(masked_a, i))->0].id, 0) is Some,
        located_under(table, with_a, masked_a, targets, limit) is Ok,
        located_under(table, with_b, masked_b, targets, limit) is Ok,
    ensures
        ({
            let a = leading_alias(with_a[i], hidden(masked_a, i))->0;
            let b = leading_alias(with_b[i], hidden(masked_b, i))->0;
            let found_a = located_under(table, with_a, masked_a, targets, limit)->Ok_0;
            let found_b = located_under(table, with_b, masked_b, targets, limit)->Ok_0;
            &&& found_a.len() > 0 && found_b.len() > 0
            &&& found_a[0].target == found_b[0].target
            &&& targets[found_a[0].target as int] == table[a].id
            &&& found_a[0].location.declaration().offset == found_b[0].location.declaration().offset
            &&& found_a[0].location.declaration().length == declaration_length(a)
            &&& found_b[0].location.declaration().length == declaration_length(b)
            &&& found_a[0].location.name().length == alias_length(a)
            &&& found_b[0].location.name().length == alias_length(b)
            &&& limit == 1 && targets.len() == 1 ==> found_a.len() == 1 && found_b.len() == 1
        }),
{
    let counts = Seq::new(targets.len(), |p: int| 0usize);
    lemma_reaches_alike(table, with_a, masked_a, with_b, masked_b, targets, limit, 0, 0, counts, i);
    assert(token_start(with_a, 0) == 0);
    lemma_reaches(table, with_a, masked_a, targets, limit, 0, 0, counts, i);
    lemma_occurrence_spelled(table, with_a, masked_a, targets, limit, i);
    lemma_occurrence_spelled(table, with_b, masked_b, targets, limit, i);
}

/// The occurrences found depend on nothing but the texts of the tokens and
/// of the targets, what of the tokens could not be decoded, the limit, and
/// what the aliases resolve to.
pub proof fn lemma_deterministic(
    table_a: Map<AliasKey, ArgInfoView>,
    table_b: Map<AliasKey, ArgInfoView>,
    tokens_a: Seq<String>,
    tokens_b: Seq<String>,
    masked_a: Seq<nat>,
    masked_b: Seq<nat>,
    targets_a: Seq<String>,
    targets_b: Seq<String>,
    limit: usize,
)
    requires
        table_a =~= table_b,
        texts(tokens_a) =~= texts(tokens_b),
        masked_a =~= masked_b,
        texts(targets_a) =~= texts(targets_b),
    ensures
        located_under(table_a, texts(tokens_a), masked_a, texts(targets_a), limit) == located_under(
            table_b,
            texts(tokens_b),
            masked_b,
            texts(targets_b),
            limit,
        ),
{
}

/// Whether every hit has its parts in order and ends before `bound`.
pub open spec fn all_in_order(hits: Seq<Hit>, bound: int) -> bool {
    forall|k: int|
        0 <= k < hits.len() ==> (#[trigger] hits[k]).location.in_order() && hits[k].location.end()
            < bound
}

/// Whether a step from token `i` kept within the tokens it read: its
/// occurrences have their parts in order and end before the cursor that
/// it leaves, and that cursor has not run ahead of the next token.
pub open spec fn step_in_order(tokens: Seq<Seq<char>>, i: int, cursor: nat, s: Step) -> bool {
    s.unresolved is None ==> {
        &&& i + 1 + s.extra <= tokens.len()
        &&& s.cursor <= token_start(tokens, i + 1 + s.extra)
        &&& forall|k: int|
            0 <= k < s.hits.len() ==> {
                &&& (#[trigger] s.hits[k]).location.in_order()
                &&& cursor <= s.hits[k].location.start()
                &&& s.hits[k].location.end() < token_start(tokens, i + 1 + s.extra)
            }
    }
}

/// An argument takes no more tokens than there are.
pub proof fn lemma_taken_bound(tokens: Seq<Seq<char>>, from: int, quota: nat, any_shape: bool)
    requires
        0 <= from <= tokens.len(),
    ensures
        from + taken(tokens, from, quota, any_shape) <= tokens.len(),
    decreases quota,
{
    if from < tokens.len() && quota > 0 && (any_shape || is_plain(tokens[from])) {
        lemma_taken_bound(tokens, from + 1, (quota - 1) as nat, any_shape);
    }
}

/// The occurrence of an argument whose name ends its token keeps within
/// the tokens that it takes.
proof fn lemma_spaced_in_order(
    tokens: Seq<Seq<char>>,
    i: int,
    info: ArgInfoView,
    p: int,
    start: nat,
    name_offset: nat,
    name_length: nat,
    dashes: nat,
    counts: Seq<usize>,
)
    requires
        0 <= i < tokens.len(),
        token_start(tokens, tokens.len() as int) <= usize::MAX,
        start + dashes <= name_offset,
        name_offset + name_length + 1 <= token_start(tokens, i + 1),
    ensures
        step_in_order(
            tokens,
            i,
            start,
            spaced_step(
                tokens,
                i,
                info,
                p,
                part(start, dashes),
                part(name_offset, name_length),
                name_offset + name_length,
                counts,
            ),
        ),
{
    let count = taken(tokens, i + 1, info.max_values as nat, info.allow_hyphen_values);
    lemma_taken_bound(tokens, i + 1, info.max_values as nat, info.allow_hyphen_values);
    lemma_token_start_monotone(tokens, i + 1, i + 1 + count);
    lemma_token_start_monotone(tokens, i + 1 + count, tokens.len() as int);
    if count > 0 {
        assert(span_len(tokens, i + 1, count) >= 1);
    }
}

/// The walk through a cluster keeps within its token and the tokens that
/// it takes.
pub proof fn lemma_walk_in_order(
    table: Map<AliasKey, ArgInfoView>,
    tokens: Seq<Seq<char>>,
    masked: Seq<nat>,
    targets: Seq<Seq<char>>,
    limit: usize,
    i: int,
    start: nat,
    k: int,
    counts: Seq<usize>,
)
    requires
        0 <= i < tokens.len(),
        is_short(tokens[i]),
        0 <= k,
        start <= token_start(tokens, i),
        token_start(tokens, tokens.len() as int) <= usize::MAX,
    ensures
        step_in_order(tokens, i, start, walk(table, tokens, masked, targets, limit, i, start, k, counts)),
    decreases short_cluster(tokens[i]).len() - k,
{
    let token = tokens[i];
    let cluster = short_cluster(token);
    let s = walk(table, tokens, masked, targets, limit, i, start, k, counts);
    lemma_short_bytes(token);
    lemma_chars_le_bytes(cluster);
    lemma_token_span(tokens, i);
    if k < cluster.len() && !all_reached(counts, limit) && is_masked(token, hidden(masked, i), k) {
        lemma_byte_len_split(cluster, k);
        lemma_chars_le_bytes(cluster.take(k));
    } else if k < cluster.len() && !all_reached(counts, limit) {
        let key = AliasKey::Short(cluster[k]);
        if table.contains_key(key) {
            let info = table[key];
            let rest = cluster.skip(k + 1);
            lemma_byte_len_split(cluster, k + 1);
            lemma_chars_le_bytes(cluster.take(k + 1));
            lemma_chars_le_bytes(rest);
            match wanted(targets, counts, limit, info.id) {
                None => {
                    if !info.takes_values {
                        lemma_walk_in_order(table, tokens, masked, targets, limit, i, start, k + 1, counts);
                    }
                },
                Some(p) => {
                    if !info.takes_values {
                        lemma_walk_in_order(
                            table,
                            tokens,
                            masked,
                            targets,
                            limit,
                            i,
                            start,
                            k + 1,
                            bump(counts, p),
                        );
                        let later = walk(table, tokens, masked, targets, limit, i, start, k + 1, bump(counts, p));
                        if later.unresolved is None {
                            assert forall|e: int| 0 <= e < s.hits.len() implies {
                                &&& (#[trigger] s.hits[e]).location.in_order()
                                &&& start <= s.hits[e].location.start()
                                &&& s.hits[e].location.end() < token_start(
                                    tokens,
                                    i + 1 + s.extra,
                                )
                            } by {
                                lemma_token_start_monotone(tokens, i + 1, i + 1 + later.extra);
                                if e > 0 {
                                    assert(s.hits[e] == later.hits[e - 1]);
                                }
                            }
                        }
                    } else if rest.len() == 0 {
                        lemma_spaced_in_order(
                            tokens,
                            i,
                            info,
                            p,
                            start,
                            (start + 1 + k) as nat,
                            1,
                            1,
                            counts,
                        );
                    }
                },
            }
        }
    }
}

/// Every step keeps within the tokens that it reads.
pub proof fn lemma_step_in_order(
    table: Map<AliasKey, ArgInfoView>,
    tokens: Seq<Seq<char>>,
    masked: Seq<nat>,
    targets: Seq<Seq<char>>,
    limit: usize,
    i: int,
    cursor: nat,
    counts: Seq<usize>,
)
    requires
        0 <= i < tokens.len(),
        cursor <= token_start(tokens, i),
        token_start(tokens, tokens.len() as int) <= usize::MAX,
    ensures
        step_in_order(tokens, i, cursor, step(table, tokens, masked, targets, limit, i, cursor, counts)),
{
    let token = tokens[i];
    lemma_token_span(tokens, i);
    if names_long(token, hidden(masked, i)) {
        lemma_long_bytes(token);
        let key = AliasKey::Long(long_name(token));
        if table.contains_key(key) {
            match wanted(targets, counts, limit, table[key].id) {
                Some(p) => {
                    if long_value(token) is None {
                        lemma_spaced_in_order(
                            tokens,
                            i,
                            table[key],
                            p,
                            cursor,
                            cursor + 2,
                            byte_len(long_name(token)),
                            2,
                            counts,
                        );
                    }
                },
                None => {},
            }
        }
    } else if is_short(token) {
        lemma_walk_in_order(table, tokens, masked, targets, limit, i, cursor, 0, counts);
    }
}

/// From a cursor that has not run ahead of token `i`, the scan finds
/// occurrences whose parts are in order and end within the argv string.
pub proof fn lemma_scan_in_order(
    table: Map<AliasKey, ArgInfoView>,
    tokens: Seq<Seq<char>>,
    masked: Seq<nat>,
    targets: Seq<Seq<char>>,
    limit: usize,
    i: int,
    cursor: nat,
    counts: Seq<usize>,
)
    requires
        0 <= i,
        i < tokens.len() ==> cursor <= token_start(tokens, i),
        token_start(tokens, tokens.len() as int) <= usize::MAX,
    ensures
        scan(table, tokens, masked, targets, limit, i, cursor, counts) matches Ok(hits) ==> all_in_order(
            hits,
            token_start(tokens, tokens.len() as int) as int,
        ),
    decreases
        if i < tokens.len() {
            tokens.len() - i
        } else {
            0
        },
{
    if i < tokens.len() && !all_reached(counts, limit) {
        let s = step(table, tokens, masked, targets, limit, i, cursor, counts);
        lemma_step_in_order(table, tokens, masked, targets, limit, i, cursor, counts);
        if s.unresolved is None {
            let next = i + 1 + s.extra;
            lemma_token_start_monotone(tokens, next, tokens.len() as int);
            lemma_scan_in_order(table, tokens, masked, targets, limit, next, s.cursor, s.counts);
            match scan(table, tokens, masked, targets, limit, next, s.cursor, s.counts) {
                Ok(rest) => {
                    let hits = s.hits + rest;
                    assert forall|k: int| 0 <= k < hits.len() implies (#[trigger] hits[k]).location.in_order()
                        && hits[k].location.end() < token_start(tokens, tokens.len() as int) by {
                        if k < s.hits.len() {
                            assert(hits[k] == s.hits[k]);
                        } else {
                            assert(hits[k] == rest[k - s.hits.len()]);
                        }
                    }
                },
                Err(_) => {},
            }
        }
    }
}

/// The parts of every occurrence found follow each other as they do in a
/// token, and the occurrence ends within the argv string.
pub proof fn lemma_in_order(
    table: Map<AliasKey, ArgInfoView>,
    tokens: Seq<Seq<char>>,
    masked: Seq<nat>,
    targets: Seq<Seq<char>>,
    limit: usize,
)
    requires
        token_start(tokens, tokens.len() as int) <= usize::MAX,
    ensures
        located_under(table, tokens, masked, targets, limit) matches Ok(hits) ==> all_in_order(
            hits,
            token_start(tokens, tokens.len() as int) as int,
        ),
{
    assert(token_start(tokens, 0) == 0);
    lemma_scan_in_order(table, tokens, masked, targets, limit, 0, 0, Seq::new(targets.len(), |p: int| 0usize));
}

} // verus!
