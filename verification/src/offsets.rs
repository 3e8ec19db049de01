//! Where the parts of an occurrence lie: cutting the argv string at the
//! offsets of a location gives back the hyphens, the name as it was typed,
//! the delimiter and the value.

use crate::alias::{AliasKey, ArgInfoView};
use crate::index::short_key;
use crate::parse::{ArgLocation, ArgPart};
use crate::laws::{
    counts_fit, lemma_find_target, lemma_record, lemma_step_counts, lemma_taken_bound,
};
use crate::lex::{
    is_long, is_short, lemma_long_bytes, lemma_long_parts, lemma_short_bytes, long_name,
    is_masked, long_value, names_long, short_cluster,
};
use crate::scan::{
    all_reached, bump, hidden, located_under, long_step, part, scan, spaced_step, step, taken,
    walk, wanted, Hit, Step,
};
use crate::text::{
    argv_string, byte_len, head, lemma_argv_parts, lemma_byte_len_split, lemma_char_width,
    lemma_encode_concat, lemma_head_bytes, lemma_run_bytes, lemma_run_split,
    lemma_token_span, lemma_token_start_monotone, rest_after, run, token_start, SEPARATOR,
};
use vstd::prelude::*;
use vstd::utf8::encode_utf8;

verus! {

/// The hyphens that lead an alias in a token.
pub open spec fn dashes(alias: AliasKey) -> Seq<char> {
    match alias {
        AliasKey::Long(_) => seq!['-', '-'],
        AliasKey::Short(_) => seq!['-'],
    }
}

/// An alias as it is typed behind its hyphens.
pub open spec fn spelling(alias: AliasKey) -> Seq<char> {
    match alias {
        AliasKey::Long(name) => name,
        AliasKey::Short(name) => seq![name],
    }
}

/// One occurrence as a cut of the argv string into seven pieces.
pub ghost struct Site {
    /// All that stands before the hyphens.
    pub before: Seq<char>,
    /// The alias that was typed.
    pub alias: AliasKey,
    /// The short names between the hyphen and the name, in a cluster.
    pub gap: Seq<char>,
    /// `=` or the separator; empty where the occurrence has none.
    pub delimiter: Seq<char>,
    /// The value; empty where the occurrence has none.
    pub value: Seq<char>,
    /// All that stands behind the value.
    pub after: Seq<char>,
}

impl Site {
    /// The pieces put together again.
    pub open spec fn text(self) -> Seq<char> {
        self.before + dashes(self.alias) + self.gap + spelling(self.alias) + self.delimiter
            + self.value + self.after
    }

    /// Offset of the name.
    pub open spec fn name_offset(self) -> nat {
        byte_len(self.before) + byte_len(dashes(self.alias)) + byte_len(self.gap)
    }

    /// Offset of the first byte behind the name.
    pub open spec fn name_end(self) -> nat {
        self.name_offset() + byte_len(spelling(self.alias))
    }

    /// The location whose parts cover the pieces: `Complete` with a
    /// delimiter, `Stuck` with a value and no delimiter, else `Discrete`.
    pub open spec fn location(self) -> ArgLocation {
        let declaration = part(byte_len(self.before), byte_len(dashes(self.alias)));
        let name = part(self.name_offset(), byte_len(spelling(self.alias)));
        if self.delimiter.len() > 0 {
            ArgLocation::Complete {
                declaration,
                name,
                delimiter: part(self.name_end(), byte_len(self.delimiter)),
                content: part(self.name_end() + byte_len(self.delimiter), byte_len(self.value)),
            }
        } else if self.value.len() > 0 {
            ArgLocation::Stuck { declaration, name, content: part(self.name_end(), byte_len(self.value)) }
        } else {
            ArgLocation::Discrete { declaration, name }
        }
    }
}

/// Whether `site` is how `hit` lies in the argv string of `tokens`: the
/// pieces make up the argv string, the parts of the location cover them,
/// the alias typed is one of the target's argument, the hyphens start a
/// token, the delimiter is `=` or the separator, and a value ends its token.
pub open spec fn reads(
    table: Map<AliasKey, ArgInfoView>,
    tokens: Seq<Seq<char>>,
    targets: Seq<Seq<char>>,
    hit: Hit,
    site: Site,
) -> bool {
    &&& site.text() == argv_string(tokens)
    &&& hit.location == site.location()
    &&& hit.target < targets.len()
    &&& table.contains_key(site.alias)
    &&& table[site.alias].id == targets[hit.target as int]
    &&& site.before.len() == 0 || site.before.last() == SEPARATOR
    &&& site.delimiter.len() == 0 || site.delimiter == seq!['='] || site.delimiter == seq![SEPARATOR]
    &&& site.delimiter.len() > 0 || site.value.len() > 0 ==> site.after.len() == 0 || site.after[0]
        == SEPARATOR
}

/// Whether `hit` lies in the argv string of `tokens` as its location says.
pub open spec fn placed(
    table: Map<AliasKey, ArgInfoView>,
    tokens: Seq<Seq<char>>,
    targets: Seq<Seq<char>>,
    hit: Hit,
) -> bool {
    exists|site: Site| reads(table, tokens, targets, hit, site)
}

/// Whether all of `hits` lie in the argv string as their locations say.
pub open spec fn all_placed(
    table: Map<AliasKey, ArgInfoView>,
    tokens: Seq<Seq<char>>,
    targets: Seq<Seq<char>>,
    hits: Seq<Hit>,
) -> bool {
    forall|k: int| 0 <= k < hits.len() ==> placed(table, tokens, targets, #[trigger] hits[k])
}

/// Whether every short alias that the table resolves is one byte wide.
pub open spec fn narrow_shorts(table: Map<AliasKey, ArgInfoView>) -> bool {
    forall|name: char| #[trigger] table.contains_key(short_key(name)) ==> byte_len(seq![name]) == 1
}

/// Names that are one byte wide each take as many bytes as they are.
pub proof fn lemma_narrow_bytes(table: Map<AliasKey, ArgInfoView>, names: Seq<char>)
    requires
        narrow_shorts(table),
        forall|j: int| 0 <= j < names.len() ==> table.contains_key(short_key(#[trigger] names[j])),
    ensures
        byte_len(names) == names.len(),
    decreases names.len(),
{
    if names.len() > 0 {
        let front = names.drop_last();
        assert forall|j: int| 0 <= j < front.len() implies table.contains_key(
            short_key(#[trigger] front[j]),
        ) by {
            assert(front[j] == names[j]);
        }
        lemma_narrow_bytes(table, front);
        assert(table.contains_key(short_key(names[names.len() - 1])));
        assert(names == front + seq![names.last()]);
        lemma_encode_concat(front, seq![names.last()]);
    }
}

/// A site whose middle pieces make up the tokens from `i` on, `extra` of
/// them behind token `i`, makes up the argv string.
pub proof fn lemma_site_text(tokens: Seq<Seq<char>>, i: int, extra: nat, site: Site, tail: Seq<char>)
    requires
        0 <= i,
        i + 1 + extra <= tokens.len(),
        site.before == head(tokens, i),
        site.after == tail + rest_after(tokens, i + 1 + extra),
        run(tokens, i, 1 + extra) == dashes(site.alias) + site.gap + spelling(site.alias)
            + site.delimiter + site.value + tail,
    ensures
        site.text() == argv_string(tokens),
        site.before.len() == 0 || site.before.last() == SEPARATOR,
        tail.len() == 0 ==> site.after.len() == 0 || site.after[0] == SEPARATOR,
{
    lemma_argv_parts(tokens, i, 1 + extra);
    let inner = dashes(site.alias) + site.gap + spelling(site.alias) + site.delimiter + site.value;
    assert(site.text() == site.before + (inner + tail) + rest_after(tokens, i + 1 + extra));
    if tail.len() == 0 {
        assert(site.after == rest_after(tokens, i + 1 + extra));
    }
}


/// What the scan needs of its state for the offsets to be right: the
/// cursor stands where token `i` starts, the argv string with a separator
/// behind it fits the machine's integers, and the counts are in order.
pub open spec fn on_track(
    tokens: Seq<Seq<char>>,
    targets: Seq<Seq<char>>,
    limit: usize,
    i: int,
    cursor: nat,
    counts: Seq<usize>,
) -> bool {
    &&& 0 <= i <= tokens.len()
    &&& cursor == token_start(tokens, i)
    &&& token_start(tokens, tokens.len() as int) <= usize::MAX
    &&& counts_fit(counts, targets.len(), limit)
}

/// What a step leaves behind for the next one: its occurrences lie as their
/// locations say, and either the cursor stands where the next token
/// starts, or all targets were found as often as the limit allows.
pub open spec fn step_placed(
    table: Map<AliasKey, ArgInfoView>,
    tokens: Seq<Seq<char>>,
    targets: Seq<Seq<char>>,
    limit: usize,
    i: int,
    s: Step,
) -> bool {
    s.unresolved is None ==> {
        &&& all_placed(table, tokens, targets, s.hits)
        &&& i + 1 + s.extra <= tokens.len()
        &&& s.cursor == token_start(tokens, i + 1 + s.extra) || all_reached(s.counts, limit)
    }
}

/// The occurrence of an argument whose name ends token `i` lies as its
/// location says, with the following tokens that it takes as its value.
pub proof fn lemma_spaced_site(
    table: Map<AliasKey, ArgInfoView>,
    tokens: Seq<Seq<char>>,
    targets: Seq<Seq<char>>,
    i: int,
    info: ArgInfoView,
    p: int,
    alias: AliasKey,
    gap: Seq<char>,
    counts: Seq<usize>,
)
    requires
        0 <= i < tokens.len(),
        token_start(tokens, tokens.len() as int) <= usize::MAX,
        tokens[i] == dashes(alias) + gap + spelling(alias),
        table.contains_key(alias),
        0 <= p < targets.len() <= usize::MAX,
        table[alias].id == targets[p],
    ensures
        ({
            let start = token_start(tokens, i);
            let offset = start + byte_len(dashes(alias)) + byte_len(gap);
            let s = spaced_step(
                tokens,
                i,
                info,
                p,
                part(start, byte_len(dashes(alias))),
                part(offset, byte_len(spelling(alias))),
                offset + byte_len(spelling(alias)),
                counts,
            );
            &&& placed(table, tokens, targets, s.hits[0])
            &&& s.hits.len() == 1
            &&& i + 1 + s.extra <= tokens.len()
            &&& s.cursor == token_start(tokens, i + 1 + s.extra)
        }),
{
    let start = token_start(tokens, i);
    let offset = start + byte_len(dashes(alias)) + byte_len(gap);
    let end = offset + byte_len(spelling(alias));
    let declaration = part(start, byte_len(dashes(alias)));
    let name = part(offset, byte_len(spelling(alias)));
    let s = spaced_step(tokens, i, info, p, declaration, name, end, counts);
    let count = taken(tokens, i + 1, info.max_values as nat, info.allow_hyphen_values);
    lemma_taken_bound(tokens, i + 1, info.max_values as nat, info.allow_hyphen_values);
    lemma_head_bytes(tokens, i);
    lemma_encode_concat(dashes(alias), gap);
    lemma_encode_concat(dashes(alias) + gap, spelling(alias));
    lemma_token_span(tokens, i);
    lemma_token_start_monotone(tokens, i + 1, i + 1 + count);
    lemma_token_start_monotone(tokens, i + 1 + count, tokens.len() as int);
    lemma_char_width(SEPARATOR);
    let site = Site {
        before: head(tokens, i),
        alias,
        gap,
        delimiter: if count > 0 {
            seq![SEPARATOR]
        } else {
            Seq::empty()
        },
        value: run(tokens, i + 1, count),
        after: rest_after(tokens, i + 1 + count),
    };
    if count > 0 {
        lemma_run_split(tokens, i, 1, count);
        lemma_run_bytes(tokens, i + 1, count);
    }
    assert(site.after == Seq::<char>::empty() + site.after);
    assert(run(tokens, i, 1 + count) == dashes(site.alias) + site.gap + spelling(site.alias)
        + site.delimiter + site.value + Seq::<char>::empty());
    lemma_site_text(tokens, i, count, site, Seq::empty());
    assert(s.hits[0].location == site.location());
    assert(reads(table, tokens, targets, s.hits[0], site));
}


/// The site of an occurrence that lies within token `i`.
pub proof fn lemma_token_site(
    table: Map<AliasKey, ArgInfoView>,
    tokens: Seq<Seq<char>>,
    targets: Seq<Seq<char>>,
    i: int,
    p: int,
    alias: AliasKey,
    gap: Seq<char>,
    delimiter: Seq<char>,
    value: Seq<char>,
    tail: Seq<char>,
) -> (site: Site)
    requires
        0 <= i < tokens.len(),
        tokens[i] == dashes(alias) + gap + spelling(alias) + delimiter + value + tail,
        delimiter.len() == 0 || delimiter == seq!['='],
        delimiter.len() > 0 || value.len() > 0 ==> tail.len() == 0,
        table.contains_key(alias),
        0 <= p < targets.len() <= usize::MAX,
        table[alias].id == targets[p],
    ensures
        site == (Site {
            before: head(tokens, i),
            alias,
            gap,
            delimiter,
            value,
            after: tail + rest_after(tokens, i + 1),
        }),
        byte_len(site.before) == token_start(tokens, i),
        reads(table, tokens, targets, Hit { target: p as usize, location: site.location() }, site),
{
    let site = Site {
        before: head(tokens, i),
        alias,
        gap,
        delimiter,
        value,
        after: tail + rest_after(tokens, i + 1),
    };
    lemma_head_bytes(tokens, i);
    lemma_site_text(tokens, i, 0, site, tail);
    site
}

/// The step for a long token leaves its occurrence where its location says.
pub proof fn lemma_long_site(
    table: Map<AliasKey, ArgInfoView>,
    tokens: Seq<Seq<char>>,
    targets: Seq<Seq<char>>,
    limit: usize,
    i: int,
    cursor: nat,
    counts: Seq<usize>,
)
    requires
        on_track(tokens, targets, limit, i, cursor, counts),
        i < tokens.len(),
        is_long(tokens[i]),
    ensures
        step_placed(
            table,
            tokens,
            targets,
            limit,
            i,
            long_step(table, tokens, targets, limit, i, cursor, counts),
        ),
{
    let token = tokens[i];
    let name = long_name(token);
    let alias = AliasKey::Long(name);
    let s = long_step(table, tokens, targets, limit, i, cursor, counts);
    lemma_long_parts(token);
    lemma_long_bytes(token);
    lemma_token_span(tokens, i);
    lemma_char_width('-');
    lemma_char_width('=');
    assert(seq!['-', '-'] == seq!['-'] + seq!['-']);
    lemma_encode_concat(seq!['-'], seq!['-']);
    let none = Seq::<char>::empty();
    assert(byte_len(none) == 0);
    if table.contains_key(alias) {
        let info = table[alias];
        match wanted(targets, counts, limit, info.id) {
            None => {},
            Some(p) => {
                lemma_find_target(targets, info.id, 0);
                match long_value(token) {
                    Some(value) => {
                        assert(token == dashes(alias) + none + spelling(alias) + seq!['='] + value
                            + none);
                        let site = lemma_token_site(
                            table,
                            tokens,
                            targets,
                            i,
                            p,
                            alias,
                            none,
                            seq!['='],
                            value,
                            none,
                        );
                        assert(s.hits[0].location == site.location());
                        assert(reads(table, tokens, targets, s.hits[0], site));
                    },
                    None => {
                        assert(token == dashes(alias) + none + spelling(alias));
                        lemma_spaced_site(table, tokens, targets, i, info, p, alias, none, counts);
                    },
                }
            },
        }
    }
}


/// Occurrences that lie as their locations say, put one behind the other.
pub proof fn lemma_placed_concat(
    table: Map<AliasKey, ArgInfoView>,
    tokens: Seq<Seq<char>>,
    targets: Seq<Seq<char>>,
    a: Seq<Hit>,
    b: Seq<Hit>,
)
    requires
        all_placed(table, tokens, targets, a),
        all_placed(table, tokens, targets, b),
    ensures
        all_placed(table, tokens, targets, a + b),
{
    assert forall|k: int| 0 <= k < (a + b).len() implies placed(
        table,
        tokens,
        targets,
        #[trigger] (a + b)[k],
    ) by {
        if k < a.len() {
            assert((a + b)[k] == a[k]);
        } else {
            assert((a + b)[k] == b[k - a.len()]);
        }
    }
}

/// The walk through a cluster leaves its occurrences where their locations
/// say, as long as every short alias is one byte wide.
pub proof fn lemma_walk_sites(
    table: Map<AliasKey, ArgInfoView>,
    tokens: Seq<Seq<char>>,
    masked: Seq<nat>,
    targets: Seq<Seq<char>>,
    limit: usize,
    i: int,
    start: nat,
    k: int,
    counts: Seq<usize>,
)
    requires
        narrow_shorts(table),
        on_track(tokens, targets, limit, i, start, counts),
        i < tokens.len(),
        is_short(tokens[i]),
        0 <= k <= short_cluster(tokens[i]).len(),
        forall|j: int|
            0 <= j < k ==> table.contains_key(short_key(#[trigger] short_cluster(tokens[i])[j])),
    ensures
        step_placed(
            table,
            tokens,
            targets,
            limit,
            i,
            walk(table, tokens, masked, targets, limit, i, start, k, counts),
        ),
    decreases short_cluster(tokens[i]).len() - k,
{
    let token = tokens[i];
    let cluster = short_cluster(token);
    let s = walk(table, tokens, masked, targets, limit, i, start, k, counts);
    let none = Seq::<char>::empty();
    lemma_short_bytes(token);
    lemma_token_span(tokens, i);
    lemma_char_width('-');
    lemma_char_width('=');
    assert(byte_len(none) == 0);
    if k >= cluster.len() {
        lemma_narrow_bytes(table, cluster);
    } else if all_reached(counts, limit) {
    } else if is_masked(token, hidden(masked, i), k) {
        let gap = cluster.take(k);
        assert forall|j: int| 0 <= j < gap.len() implies table.contains_key(
            short_key(#[trigger] gap[j]),
        ) by {
            assert(gap[j] == cluster[j]);
        }
        lemma_narrow_bytes(table, gap);
        lemma_byte_len_split(cluster, k);
    } else {
        let name = cluster[k];
        let alias = AliasKey::Short(name);
        assert(alias == short_key(name));
        if table.contains_key(alias) {
            let info = table[alias];
            let gap = cluster.take(k);
            let rest = cluster.skip(k + 1);
            assert forall|j: int| 0 <= j < k + 1 implies table.contains_key(
                short_key(#[trigger] cluster[j]),
            ) by {}
            assert forall|j: int| 0 <= j < gap.len() implies table.contains_key(
                short_key(#[trigger] gap[j]),
            ) by {
                assert(gap[j] == cluster[j]);
            }
            lemma_narrow_bytes(table, gap);
            let upto = cluster.take(k + 1);
            assert forall|j: int| 0 <= j < upto.len() implies table.contains_key(
                short_key(#[trigger] upto[j]),
            ) by {
                assert(upto[j] == cluster[j]);
            }
            lemma_narrow_bytes(table, upto);
            lemma_byte_len_split(cluster, k + 1);
            assert(token == seq!['-'] + cluster);
            assert(cluster == gap + seq![name] + rest);
            match wanted(targets, counts, limit, info.id) {
                None => {
                    if !info.takes_values {
                        lemma_walk_sites(table, tokens, masked, targets, limit, i, start, k + 1, counts);
                    }
                },
                Some(p) => {
                    lemma_find_target(targets, info.id, 0);
                    lemma_record(targets, counts, limit, info.id, s.hits[0].location);
                    if !info.takes_values {
                        assert(token == dashes(alias) + gap + spelling(alias) + none + none + rest);
                        let site = lemma_token_site(
                            table,
                            tokens,
                            targets,
                            i,
                            p,
                            alias,
                            gap,
                            none,
                            none,
                            rest,
                        );
                        let hit = s.hits[0];
                        assert(hit.location == site.location());
                        assert(reads(table, tokens, targets, hit, site));
                        lemma_walk_sites(
                            table,
                            tokens,
                            masked,
                            targets,
                            limit,
                            i,
                            start,
                            k + 1,
                            bump(counts, p),
                        );
                        let later = walk(table, tokens, masked, targets, limit, i, start, k + 1, bump(counts, p));
                        if later.unresolved is None {
                            assert(all_placed(table, tokens, targets, seq![hit]));
                            lemma_placed_concat(table, tokens, targets, seq![hit], later.hits);
                        }
                    } else if rest.len() > 0 {
                        if rest[0] == '=' {
                            let value = rest.skip(1);
                            assert(rest == seq!['='] + value);
                            lemma_encode_concat(seq!['='], value);
                            assert(token == dashes(alias) + gap + spelling(alias) + seq!['=']
                                + value + none);
                            let site = lemma_token_site(
                                table,
                                tokens,
                                targets,
                                i,
                                p,
                                alias,
                                gap,
                                seq!['='],
                                value,
                                none,
                            );
                            assert(s.hits[0].location == site.location());
                            assert(reads(table, tokens, targets, s.hits[0], site));
                        } else {
                            assert(token == dashes(alias) + gap + spelling(alias) + none + rest
                                + none);
                            let site = lemma_token_site(
                                table,
                                tokens,
                                targets,
                                i,
                                p,
                                alias,
                                gap,
                                none,
                                rest,
                                none,
                            );
                            assert(s.hits[0].location == site.location());
                            assert(reads(table, tokens, targets, s.hits[0], site));
                        }
                    } else {
                        assert(cluster == gap + seq![name]);
                        assert(token == dashes(alias) + gap + spelling(alias));
                        lemma_spaced_site(table, tokens, targets, i, info, p, alias, gap, counts);
                    }
                },
            }
        }
    }
}

/// Every step leaves its occurrences where their locations say.
pub proof fn lemma_step_sites(
    table: Map<AliasKey, ArgInfoView>,
    tokens: Seq<Seq<char>>,
    masked: Seq<nat>,
    targets: Seq<Seq<char>>,
    limit: usize,
    i: int,
    cursor: nat,
    counts: Seq<usize>,
)
    requires
        narrow_shorts(table),
        on_track(tokens, targets, limit, i, cursor, counts),
        i < tokens.len(),
    ensures
        step_placed(
            table,
            tokens,
            targets,
            limit,
            i,
            step(table, tokens, masked, targets, limit, i, cursor, counts),
        ),
{
    if names_long(tokens[i], hidden(masked, i)) {
        lemma_long_site(table, tokens, targets, limit, i, cursor, counts);
    } else if is_short(tokens[i]) {
        lemma_walk_sites(table, tokens, masked, targets, limit, i, cursor, 0, counts);
    } else {
        lemma_token_span(tokens, i);
    }
}

/// The scan leaves every occurrence where its location says.
pub proof fn lemma_scan_sites(
    table: Map<AliasKey, ArgInfoView>,
    tokens: Seq<Seq<char>>,
    masked: Seq<nat>,
    targets: Seq<Seq<char>>,
    limit: usize,
    i: int,
    cursor: nat,
    counts: Seq<usize>,
)
    requires
        narrow_shorts(table),
        on_track(tokens, targets, limit, i, cursor, counts) || all_reached(counts, limit),
    ensures
        scan(table, tokens, masked, targets, limit, i, cursor, counts) matches Ok(hits) ==> all_placed(
            table,
            tokens,
            targets,
            hits,
        ),
    decreases
        if i < tokens.len() {
            tokens.len() - i
        } else {
            0
        },
{
    if i < 0 || i >= tokens.len() || all_reached(counts, limit) {
    } else {
        let s = step(table, tokens, masked, targets, limit, i, cursor, counts);
        lemma_step_sites(table, tokens, masked, targets, limit, i, cursor, counts);
        lemma_step_counts(table, tokens, masked, targets, limit, i, cursor, counts);
        if s.unresolved is None {
            lemma_scan_sites(table, tokens, masked, targets, limit, i + 1 + s.extra, s.cursor, s.counts);
            match scan(table, tokens, masked, targets, limit, i + 1 + s.extra, s.cursor, s.counts) {
                Ok(rest) => {
                    lemma_placed_concat(table, tokens, targets, s.hits, rest);
                },
                Err(_) => {},
            }
        }
    }
}

/// Every occurrence found lies in the argv string as its location says:
/// the argv string is made of what stands before the hyphens, the hyphens,
/// the short names before the name, the name as it was typed, the
/// delimiter, the value and what follows, and the parts of the location
/// cover the hyphens, the name, the delimiter and the value. This holds
/// where every short alias is one byte wide, since the scan counts one byte
/// for each.
pub proof fn lemma_offsets(
    table: Map<AliasKey, ArgInfoView>,
    tokens: Seq<Seq<char>>,
    masked: Seq<nat>,
    targets: Seq<Seq<char>>,
    limit: usize,
)
    requires
        narrow_shorts(table),
        token_start(tokens, tokens.len() as int) <= usize::MAX,
        targets.len() <= usize::MAX,
    ensures
        located_under(table, tokens, masked, targets, limit) matches Ok(hits) ==> all_placed(
            table,
            tokens,
            targets,
            hits,
        ),
{
    let counts = Seq::new(targets.len(), |p: int| 0usize);
    assert(token_start(tokens, 0) == 0);
    lemma_scan_sites(table, tokens, masked, targets, limit, 0, 0, counts);
}


/// The bytes of the argv string that `part` covers.
pub open spec fn cut(tokens: Seq<Seq<char>>, part: ArgPart) -> Seq<u8> {
    encode_utf8(argv_string(tokens)).subrange(part.offset as int, part.offset + part.length)
}

/// Whether cutting the argv string at the parts of `location` gives the
/// bytes of the hyphens, of the name, of the delimiter and of the value of
/// `site`.
pub open spec fn cuts_out(tokens: Seq<Seq<char>>, site: Site, location: ArgLocation) -> bool {
    match location {
        ArgLocation::Discrete { declaration, name } => {
            &&& cut(tokens, declaration) == encode_utf8(dashes(site.alias))
            &&& cut(tokens, name) == encode_utf8(spelling(site.alias))
        },
        ArgLocation::Stuck { declaration, name, content } => {
            &&& cut(tokens, declaration) == encode_utf8(dashes(site.alias))
            &&& cut(tokens, name) == encode_utf8(spelling(site.alias))
            &&& cut(tokens, content) == encode_utf8(site.value)
        },
        ArgLocation::Complete { declaration, name, delimiter, content } => {
            &&& cut(tokens, declaration) == encode_utf8(dashes(site.alias))
            &&& cut(tokens, name) == encode_utf8(spelling(site.alias))
            &&& cut(tokens, delimiter) == encode_utf8(site.delimiter)
            &&& cut(tokens, content) == encode_utf8(site.value)
        },
    }
}

/// Cutting the argv string at the offsets of a site's location gives back
/// the pieces of the site, byte for byte.
pub proof fn lemma_site_slices(tokens: Seq<Seq<char>>, site: Site)
    requires
        site.text() == argv_string(tokens),
        byte_len(argv_string(tokens)) <= usize::MAX,
    ensures
        cuts_out(tokens, site, site.location()),
{
    let a = site.before;
    let b = dashes(site.alias);
    let c = site.gap;
    let d = spelling(site.alias);
    let e = site.delimiter;
    let f = site.value;
    let g = site.after;
    lemma_encode_concat(a, b);
    lemma_encode_concat(a + b, c);
    lemma_encode_concat(a + b + c, d);
    lemma_encode_concat(a + b + c + d, e);
    lemma_encode_concat(a + b + c + d + e, f);
    lemma_encode_concat(a + b + c + d + e + f, g);
    let bytes = encode_utf8(argv_string(tokens));
    assert(bytes == encode_utf8(a) + encode_utf8(b) + encode_utf8(c) + encode_utf8(d)
        + encode_utf8(e) + encode_utf8(f) + encode_utf8(g));
    let at_b = byte_len(a) as int;
    let at_d = at_b + byte_len(b) + byte_len(c);
    let at_e = at_d + byte_len(d);
    let at_f = at_e + byte_len(e);
    assert(bytes.subrange(at_b, at_b + byte_len(b)) =~= encode_utf8(b));
    assert(bytes.subrange(at_d, at_d + byte_len(d)) =~= encode_utf8(d));
    assert(bytes.subrange(at_e, at_e + byte_len(e)) =~= encode_utf8(e));
    assert(bytes.subrange(at_f, at_f + byte_len(f)) =~= encode_utf8(f));
    if e.len() == 0 {
        assert(byte_len(e) == 0);
    }
}

/// Every occurrence found can be cut out of the argv string: at the offsets
/// of its location stand the hyphens, an alias of the target's argument as
/// it was typed, the delimiter and the value. This holds where every short
/// alias is one byte wide.
pub proof fn lemma_offsets_cut(
    table: Map<AliasKey, ArgInfoView>,
    tokens: Seq<Seq<char>>,
    masked: Seq<nat>,
    targets: Seq<Seq<char>>,
    limit: usize,
)
    requires
        narrow_shorts(table),
        token_start(tokens, tokens.len() as int) <= usize::MAX,
        targets.len() <= usize::MAX,
    ensures
        located_under(table, tokens, masked, targets, limit) matches Ok(hits) ==> forall|k: int|
            0 <= k < hits.len() ==> exists|site: Site|
                reads(table, tokens, targets, #[trigger] hits[k], site) && cuts_out(
                    tokens,
                    site,
                    hits[k].location,
                ),
{
    lemma_offsets(table, tokens, masked, targets, limit);
    if tokens.len() > 0 {
        lemma_run_bytes(tokens, 0, tokens.len());
    } else {
        assert(byte_len(Seq::<char>::empty()) == 0);
    }
    match located_under(table, tokens, masked, targets, limit) {
        Ok(hits) => {
            assert forall|k: int| 0 <= k < hits.len() implies exists|site: Site|
                reads(table, tokens, targets, #[trigger] hits[k], site) && cuts_out(
                    tokens,
                    site,
                    hits[k].location,
                ) by {
                assert(placed(table, tokens, targets, hits[k]));
                let site = choose|site: Site| reads(table, tokens, targets, hits[k], site);
                lemma_site_slices(tokens, site);
            }
        },
        Err(_) => {},
    }
}

} // verus!
