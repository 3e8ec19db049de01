//! The scan as a mathematical function: one pass over the tokens from left
//! to right, with a running byte cursor.

use crate::alias::{AliasKey, ArgInfoView};
use crate::lex::{
    is_masked, is_plain, is_short, long_name, long_value, names_long, short_cluster,
};
use crate::parse::{ArgLocation, ArgPart};
use crate::text::{byte_len, span_len};
use vstd::prelude::*;

verus! {

/// One located occurrence: the index of the target it belongs to and where
/// it lies.
#[derive(Clone, Copy, Debug, PartialEq, Eq, Structural)]
pub struct Hit {
    pub target: usize,
    pub location: ArgLocation,
}

/// What the scan makes of one token and of the values it takes with it.
pub ghost struct Step {
    /// The occurrences found, from left to right.
    pub hits: Seq<Hit>,
    /// How many following tokens were taken as values.
    pub extra: nat,
    /// The cursor behind the token, its values and the separator.
    pub cursor: nat,
    /// How often each target was found so far.
    pub counts: Seq<usize>,
    /// The alias that no argument has, where the scan met one.
    pub unresolved: Option<AliasKey>,
}

pub open spec fn part(offset: nat, length: nat) -> ArgPart {
    ArgPart { offset: offset as usize, length: length as usize }
}

/// Index of the first target from `from` on that is `id`.
pub open spec fn find_target(targets: Seq<Seq<char>>, id: Seq<char>, from: int) -> Option<int>
    decreases targets.len() - from,
{
    if from < 0 || from >= targets.len() {
        None
    } else if targets[from] == id {
        Some(from)
    } else {
        find_target(targets, id, from + 1)
    }
}

/// Whether every target was found as often as the limit allows.
pub open spec fn all_reached(counts: Seq<usize>, limit: usize) -> bool {
    forall|p: int| 0 <= p < counts.len() ==> counts[p] >= limit
}

/// The target that an occurrence of the argument `id` counts for: the first
/// target of that name, while it is under the limit. An argument that is no
/// target, or whose target is at the limit, is not wanted.
pub open spec fn wanted(
    targets: Seq<Seq<char>>,
    counts: Seq<usize>,
    limit: usize,
    id: Seq<char>,
) -> Option<int> {
    match find_target(targets, id, 0) {
        Some(p) => if counts[p] < limit {
            Some(p)
        } else {
            None
        },
        None => None,
    }
}

/// The counts after one more occurrence of target `p`.
pub open spec fn bump(counts: Seq<usize>, p: int) -> Seq<usize> {
    counts.update(p, (counts[p] + 1) as usize)
}

/// How many of the last characters of token `i` stand for bytes that could
/// not be decoded; none where `masked` does not reach.
pub open spec fn hidden(masked: Seq<nat>, i: int) -> nat {
    if 0 <= i < masked.len() {
        masked[i]
    } else {
        0
    }
}

/// Counts as mathematical numbers.
pub open spec fn nats(counts: Seq<usize>) -> Seq<nat> {
    Seq::new(counts.len(), |i: int| counts[i] as nat)
}

/// How many tokens from `from` on an argument takes as values: at most
/// `quota`, and only while they are plain or any shape is allowed.
pub open spec fn taken(tokens: Seq<Seq<char>>, from: int, quota: nat, any_shape: bool) -> nat
    decreases quota,
{
    if from < 0 || from >= tokens.len() || quota == 0 {
        0
    } else if any_shape || is_plain(tokens[from]) {
        1 + taken(tokens, from + 1, (quota - 1) as nat, any_shape)
    } else {
        0
    }
}

/// An occurrence whose name ends its token at `name_end`: the values are the
/// following tokens that the argument takes.
pub open spec fn spaced_step(
    tokens: Seq<Seq<char>>,
    i: int,
    info: ArgInfoView,
    p: int,
    declaration: ArgPart,
    name: ArgPart,
    name_end: nat,
    counts: Seq<usize>,
) -> Step {
    let count = taken(tokens, i + 1, info.max_values as nat, info.allow_hyphen_values);
    let bytes = span_len(tokens, i + 1, count);
    let location = if count == 0 {
        ArgLocation::Discrete { declaration, name }
    } else {
        ArgLocation::complete(declaration, name, (bytes - 1) as usize)
    };
    Step {
        hits: seq![Hit { target: p as usize, location }],
        extra: count,
        cursor: name_end + 1 + bytes,
        counts: bump(counts, p),
        unresolved: None,
    }
}

/// The step for a token `--name` or `--name=value` that starts at `cursor`.
/// A name that is wanted is an occurrence: with its inline value, or with
/// the following tokens that it takes. A name that is not wanted, be it no
/// target or a target at its limit, is passed over with the whole token.
pub open spec fn long_step(
    table: Map<AliasKey, ArgInfoView>,
    tokens: Seq<Seq<char>>,
    targets: Seq<Seq<char>>,
    limit: usize,
    i: int,
    cursor: nat,
    counts: Seq<usize>,
) -> Step {
    let token = tokens[i];
    let key = AliasKey::Long(long_name(token));
    let behind = cursor + byte_len(token) + 1;
    if !table.contains_key(key) {
        Step { hits: Seq::empty(), extra: 0, cursor, counts, unresolved: Some(key) }
    } else {
        match wanted(targets, counts, limit, table[key].id) {
            None => Step { hits: Seq::empty(), extra: 0, cursor: behind, counts, unresolved: None },
            Some(p) => {
                let declaration = part(cursor, 2);
                let name = part(cursor + 2, byte_len(long_name(token)));
                match long_value(token) {
                    Some(value) => Step {
                        hits: seq![
                            Hit {
                                target: p as usize,
                                location: ArgLocation::complete(
                                    declaration,
                                    name,
                                    byte_len(value) as usize,
                                ),
                            },
                        ],
                        extra: 0,
                        cursor: behind,
                        counts: bump(counts, p),
                        unresolved: None,
                    },
                    None => spaced_step(
                        tokens,
                        i,
                        table[key],
                        p,
                        declaration,
                        name,
                        cursor + 2 + byte_len(long_name(token)),
                        counts,
                    ),
                }
            },
        }
    }
}

/// The step for a cluster of short names whose token starts at `start`,
/// from the `k`-th name of the cluster on. Each name counts as one byte. A
/// flag is an occurrence of its own, and the walk goes on behind it. The
/// first name that takes values ends the walk: what follows it in the
/// cluster is its value, led by `=` or stuck to the name, and where nothing
/// follows, its values are the tokens behind. The walk also ends at a
/// character that stands for what could not be decoded, which is passed
/// over with all that follows it in the cluster, and where every target was
/// found as often as the limit allows.
pub open spec fn walk(
    table: Map<AliasKey, ArgInfoView>,
    tokens: Seq<Seq<char>>,
    masked: Seq<nat>,
    targets: Seq<Seq<char>>,
    limit: usize,
    i: int,
    start: nat,
    k: int,
    counts: Seq<usize>,
) -> Step
    decreases short_cluster(tokens[i]).len() - k,
{
    let cluster = short_cluster(tokens[i]);
    if k < 0 || k >= cluster.len() {
        Step {
            hits: Seq::empty(),
            extra: 0,
            cursor: start + 1 + cluster.len() + 1,
            counts,
            unresolved: None,
        }
    } else if all_reached(counts, limit) {
        Step { hits: Seq::empty(), extra: 0, cursor: start, counts, unresolved: None }
    } else if is_masked(tokens[i], hidden(masked, i), k) {
        Step {
            hits: Seq::empty(),
            extra: 0,
            cursor: (start + 1 + k) as nat + byte_len(cluster.skip(k)) + 1,
            counts,
            unresolved: None,
        }
    } else {
        let key = AliasKey::Short(cluster[k]);
        if !table.contains_key(key) {
            Step { hits: Seq::empty(), extra: 0, cursor: start, counts, unresolved: Some(key) }
        } else {
            let info = table[key];
            let found = wanted(targets, counts, limit, info.id);
            let declaration = part(start, 1);
            let name = part((start + 1 + k) as nat, 1);
            if !info.takes_values {
                match found {
                    Some(p) => {
                        let hit = Hit {
                            target: p as usize,
                            location: ArgLocation::Discrete { declaration, name },
                        };
                        let rest = walk(table, tokens, masked, targets, limit, i, start, k + 1, bump(counts, p));
                        Step { hits: seq![hit] + rest.hits, ..rest }
                    },
                    None => walk(table, tokens, masked, targets, limit, i, start, k + 1, counts),
                }
            } else {
                let rest = cluster.skip(k + 1);
                let name_end = (start + 1 + k + 1) as nat;
                let behind = name_end + byte_len(rest) + 1;
                match found {
                    None => Step {
                        hits: Seq::empty(),
                        extra: 0,
                        cursor: behind,
                        counts,
                        unresolved: None,
                    },
                    Some(p) => if rest.len() > 0 {
                        let location = if rest[0] == '=' {
                            ArgLocation::complete(declaration, name, (byte_len(rest) - 1) as usize)
                        } else {
                            ArgLocation::Stuck {
                                declaration,
                                name,
                                content: part(name_end, byte_len(rest)),
                            }
                        };
                        Step {
                            hits: seq![Hit { target: p as usize, location }],
                            extra: 0,
                            cursor: behind,
                            counts: bump(counts, p),
                            unresolved: None,
                        }
                    } else {
                        spaced_step(tokens, i, info, p, declaration, name, name_end, counts)
                    },
                }
            }
        }
    }
}

/// The step for token `i`, which starts at `cursor`. A long token whose
/// name could not be decoded to its end is passed over like a plain one.
pub open spec fn step(
    table: Map<AliasKey, ArgInfoView>,
    tokens: Seq<Seq<char>>,
    masked: Seq<nat>,
    targets: Seq<Seq<char>>,
    limit: usize,
    i: int,
    cursor: nat,
    counts: Seq<usize>,
) -> Step {
    if names_long(tokens[i], hidden(masked, i)) {
        long_step(table, tokens, targets, limit, i, cursor, counts)
    } else if is_short(tokens[i]) {
        walk(table, tokens, masked, targets, limit, i, cursor, 0, counts)
    } else {
        Step {
            hits: Seq::empty(),
            extra: 0,
            cursor: cursor + byte_len(tokens[i]) + 1,
            counts,
            unresolved: None,
        }
    }
}

/// The occurrences found from token `i` on, or the first alias that no
/// argument has. The scan ends where the tokens end or where every target
/// was found as often as the limit allows.
pub open spec fn scan(
    table: Map<AliasKey, ArgInfoView>,
    tokens: Seq<Seq<char>>,
    masked: Seq<nat>,
    targets: Seq<Seq<char>>,
    limit: usize,
    i: int,
    cursor: nat,
    counts: Seq<usize>,
) -> Result<Seq<Hit>, AliasKey>
    decreases
        if i < tokens.len() {
            tokens.len() - i
        } else {
            0
        },
{
    if i < 0 || i >= tokens.len() || all_reached(counts, limit) {
        Ok(Seq::empty())
    } else {
        let s = step(table, tokens, masked, targets, limit, i, cursor, counts);
        match s.unresolved {
            Some(key) => Err(key),
            None => match scan(table, tokens, masked, targets, limit, i + 1 + s.extra, s.cursor, s.counts) {
                Ok(rest) => Ok(s.hits + rest),
                Err(key) => Err(key),
            },
        }
    }
}

/// The occurrences of `targets` among `tokens`, in the order in which the
/// scan meets them, at most `limit` for each target; or the first alias that
/// the scan meets and no argument has. Of token `i` the last `masked[i]`
/// characters stand for bytes that could not be decoded: they name no
/// argument and take part in values only.
pub open spec fn located_under(
    table: Map<AliasKey, ArgInfoView>,
    tokens: Seq<Seq<char>>,
    masked: Seq<nat>,
    targets: Seq<Seq<char>>,
    limit: usize,
) -> Result<Seq<Hit>, AliasKey> {
    scan(table, tokens, masked, targets, limit, 0, 0, Seq::new(targets.len(), |p: int| 0usize))
}

/// The occurrences of `targets` among tokens that are text throughout.
pub open spec fn located(
    table: Map<AliasKey, ArgInfoView>,
    tokens: Seq<Seq<char>>,
    targets: Seq<Seq<char>>,
    limit: usize,
) -> Result<Seq<Hit>, AliasKey> {
    located_under(table, tokens, Seq::empty(), targets, limit)
}

} // verus!
