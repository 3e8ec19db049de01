//! Spans of an argument's parts in the argv string.

use crate::alias::{AliasKey, AliasToArgMapper, ArgAlias, ArgInfo};
use crate::laws::{count_for, in_range, lemma_at_most_limit, lemma_in_order};
use crate::lex::{
    classify, is_long, is_short, lemma_long_bytes, lemma_long_name_within, lemma_short_bytes,
    long_name, long_value, names_long, short_cluster, text_of, Token,
};
use crate::raw::{all_bytes, masked_under, offsets_fit, read_tokens, texts_under, LengthMode};
use crate::scan::{
    all_reached, bump, find_target, hidden, located, located_under, long_step, nats, scan,
    spaced_step, step, taken, walk, wanted, Hit, Step,
};
use crate::text::{
    byte_len, lemma_byte_len_split, lemma_chars_le_bytes, lemma_span_split,
    lemma_token_span, lemma_token_start_monotone, span_len, tail_byte_len, texts, token_start,
};
use vstd::prelude::*;
use vstd::string::StrSliceExecFns;

verus! {

/// Length of the delimiter between a name and its value: `=` or the separator.
pub const DELIMITER_LENGTH: usize = 1;

/// Length of a short name as the scan counts it.
pub const SHORT_LENGTH: usize = 1;

/// Length of the two hyphens that lead a long name.
pub const LONG_DECLARATION_LENGTH: usize = 2;

/// Length of the hyphen that leads a cluster of short names.
pub const SHORT_DECLARATION_LENGTH: usize = 1;

/// A half-open range of bytes in the argv string.
#[derive(Clone, Copy, Debug, PartialEq, Eq, Structural, PartialOrd, Ord)]
pub struct ArgPart {
    /// Offset of the part's first byte in the argv string.
    pub offset: usize,
    /// Number of bytes in the part.
    pub length: usize,
}

impl Default for ArgPart {
    fn default() -> (r: Self)
        ensures
            r == (ArgPart { offset: 0, length: 0 }),
    {
        ArgPart { offset: 0, length: 0 }
    }
}

impl ArgPart {
    /// Offset of the first byte behind the part.
    pub open spec fn end(self) -> int {
        self.offset + self.length
    }
}

/// How one occurrence of an argument lies in the argv string.
///
/// `declaration` covers the leading hyphens and `name` the name as it was
/// typed. For a long name the two are neighbours; a short name may stand
/// further right in its cluster.
#[derive(Clone, Copy, Debug, PartialEq, Eq, Structural, PartialOrd, Ord)]
pub enum ArgLocation {
    /// An occurrence without a value.
    Discrete { declaration: ArgPart, name: ArgPart },
    /// A short name with its value directly behind it, no delimiter between.
    Stuck { declaration: ArgPart, name: ArgPart, content: ArgPart },
    /// A name, one delimiter (`=` or the separator) and the value.
    Complete { declaration: ArgPart, name: ArgPart, delimiter: ArgPart, content: ArgPart },
}

impl ArgLocation {
    /// Offset of the first byte of the occurrence: that of its hyphens.
    pub open spec fn start(self) -> int {
        match self {
            ArgLocation::Discrete { declaration, .. } => declaration.offset as int,
            ArgLocation::Stuck { declaration, .. } => declaration.offset as int,
            ArgLocation::Complete { declaration, .. } => declaration.offset as int,
        }
    }

    /// Offset of the first byte behind the occurrence: behind its value, or
    /// behind its name where it has no value.
    pub open spec fn end(self) -> int {
        match self {
            ArgLocation::Discrete { name, .. } => name.end(),
            ArgLocation::Stuck { content, .. } => content.end(),
            ArgLocation::Complete { content, .. } => content.end(),
        }
    }

    /// Whether the parts follow each other as they do in a token: the name
    /// behind the hyphens, a delimiter of one byte right behind the name,
    /// the value right behind the delimiter or, without one, behind the name.
    pub open spec fn in_order(self) -> bool {
        match self {
            ArgLocation::Discrete { declaration, name } => declaration.end() <= name.offset,
            ArgLocation::Stuck { declaration, name, content } => {
                &&& declaration.end() <= name.offset
                &&& name.end() == content.offset
            },
            ArgLocation::Complete { declaration, name, delimiter, content } => {
                &&& declaration.end() <= name.offset
                &&& name.end() == delimiter.offset
                &&& delimiter.length == DELIMITER_LENGTH
                &&& delimiter.end() == content.offset
            },
        }
    }

    /// The part that covers the hyphens.
    pub open spec fn declaration(self) -> ArgPart {
        match self {
            ArgLocation::Discrete { declaration, .. } => declaration,
            ArgLocation::Stuck { declaration, .. } => declaration,
            ArgLocation::Complete { declaration, .. } => declaration,
        }
    }

    /// The part that covers the name.
    pub open spec fn name(self) -> ArgPart {
        match self {
            ArgLocation::Discrete { name, .. } => name,
            ArgLocation::Stuck { name, .. } => name,
            ArgLocation::Complete { name, .. } => name,
        }
    }

    /// Offset from which the occurrence is shown with its name. A long name
    /// is shown with its hyphens. A short name is shown from the name on:
    /// between it and the hyphen of its cluster other names may stand.
    pub open spec fn shown_from(self) -> usize {
        if self.declaration().length == SHORT_DECLARATION_LENGTH {
            self.name().offset
        } else {
            self.declaration().offset
        }
    }

    /// The bytes that the occurrence is shown by, as offset and length. An
    /// occurrence with a value that is not empty is shown by the value
    /// alone, or with `include_arg_name` from its name to the end of the
    /// value. Any other is shown by its name: an empty value and no value
    /// are the same here.
    pub open spec fn span_of(self, include_arg_name: bool) -> (usize, usize) {
        let named = (self.shown_from(), (self.name().end() - self.shown_from()) as usize);
        match self {
            ArgLocation::Discrete { .. } => named,
            ArgLocation::Stuck { content, .. } | ArgLocation::Complete { content, .. } => if content.length
                == 0 {
                named
            } else if include_arg_name {
                (self.shown_from(), (content.end() - self.shown_from()) as usize)
            } else {
                (content.offset, content.length)
            },
        }
    }

    /// The bytes that the occurrence is shown by, as offset and length.
    pub fn span(&self, include_arg_name: bool) -> (r: (usize, usize))
        requires
            self.in_order(),
            self.end() <= usize::MAX,
        ensures
            r == self.span_of(include_arg_name),
    {
        let (declaration, name, content) = match *self {
            ArgLocation::Discrete { declaration, name } => (declaration, name, None),
            ArgLocation::Stuck { declaration, name, content } => (declaration, name, Some(content)),
            ArgLocation::Complete { declaration, name, delimiter: _, content } => (
                declaration,
                name,
                Some(content),
            ),
        };
        let from = if declaration.length == SHORT_DECLARATION_LENGTH {
            name.offset
        } else {
            declaration.offset
        };
        match content {
            Some(content) => if content.length == 0 {
                (from, name.offset + name.length - from)
            } else if include_arg_name {
                (from, content.offset + content.length - from)
            } else {
                (content.offset, content.length)
            },
            None => (from, name.offset + name.length - from),
        }
    }

    /// The location of a name that is followed by one delimiter byte and
    /// `content_length` bytes of value.
    pub open spec fn complete(declaration: ArgPart, name: ArgPart, content_length: usize) -> Self {
        ArgLocation::Complete {
            declaration,
            name,
            delimiter: ArgPart {
                offset: (name.offset + name.length) as usize,
                length: DELIMITER_LENGTH,
            },
            content: ArgPart {
                offset: (name.offset + name.length + DELIMITER_LENGTH) as usize,
                length: content_length,
            },
        }
    }

    /// Builds `Complete` from the two leading parts and the length of the
    /// value: the delimiter follows the name, the value follows the delimiter.
    pub fn new_complete(declaration: ArgPart, name: ArgPart, content_length: usize) -> (r: Self)
        requires
            name.offset + name.length + DELIMITER_LENGTH <= usize::MAX,
        ensures
            r == Self::complete(declaration, name, content_length),
    {
        let delimiter = ArgPart { offset: name.offset + name.length, length: DELIMITER_LENGTH };
        let content = ArgPart { offset: delimiter.offset + delimiter.length, length: content_length };
        ArgLocation::Complete { declaration, name, delimiter, content }
    }
}


/// Whether every target was found as often as the limit allows.
fn all_targets_reached(counts: &Vec<usize>, limit: usize) -> (b: bool)
    ensures
        b == all_reached(counts@, limit),
{
    let mut p: usize = 0;
    while p < counts.len()
        invariant
            p <= counts.len(),
            forall|q: int| 0 <= q < p ==> counts@[q] >= limit,
        decreases counts.len() - p,
    {
        if counts[p] < limit {
            return false;
        }
        p = p + 1;
    }
    true
}

/// The target that an occurrence of the argument `id` counts for.
fn wanted_target(targets: &[String], counts: &Vec<usize>, limit: usize, id: &String) -> (r: Option<
    usize,
>)
    requires
        counts.len() == targets.len(),
    ensures
        match r {
            Some(p) => wanted(texts(targets@), counts@, limit, id@) == Some(p as int) && p
                < targets.len() && counts@[p as int] < limit,
            None => wanted(texts(targets@), counts@, limit, id@) is None,
        },
{
    let mut p: usize = 0;
    while p < targets.len()
        invariant
            p <= targets.len(),
            counts.len() == targets.len(),
            find_target(texts(targets@), id@, 0) == find_target(texts(targets@), id@, p as int),
        decreases targets.len() - p,
    {
        if targets[p] == *id {
            if counts[p] < limit {
                return Some(p);
            } else {
                return None;
            }
        }
        p = p + 1;
    }
    None
}

/// Takes the values of an argument from the tokens behind its own: how many
/// tokens it takes, and the bytes that they and their separators fill.
fn take_values(tokens: &[String], from: usize, quota: usize, any_shape: bool) -> (r: (usize, usize))
    requires
        from <= tokens.len(),
        token_start(texts(tokens@), tokens.len() as int) <= usize::MAX,
    ensures
        r.0 == taken(texts(tokens@), from as int, quota as nat, any_shape),
        r.1 == span_len(texts(tokens@), from as int, r.0 as nat),
        from + r.0 <= tokens.len(),
{
    let ghost all = texts(tokens@);
    let mut count: usize = 0;
    let mut bytes: usize = 0;
    let mut open = true;
    while open && count < quota && from + count < tokens.len()
        invariant
            all == texts(tokens@),
            !open ==> taken(all, from + count, (quota - count) as nat, any_shape) == 0,
            from + count <= tokens.len(),
            count <= quota,
            token_start(all, tokens.len() as int) <= usize::MAX,
            bytes == span_len(all, from as int, count as nat),
            taken(all, from as int, quota as nat, any_shape) == count + taken(
                all,
                from + count,
                (quota - count) as nat,
                any_shape,
            ),
        decreases tokens.len() - from - count + if open { 1int } else { 0int },
    {
        let token = tokens[from + count].as_str();
        let fits = if any_shape {
            true
        } else {
            match classify(token) {
                Token::Plain => true,
                _ => false,
            }
        };
        if fits {
            proof {
                lemma_span_split(all, from as int, count as nat, 1);
                assert(span_len(all, from + count, 1) == byte_len(all[from + count]) + 1
                    + span_len(all, from + count + 1, 0));
                lemma_token_start_monotone(all, from as int, from + count + 1);
                lemma_token_start_monotone(all, from + count + 1, tokens.len() as int);
            }
            bytes = bytes + token.len() + 1;
            count = count + 1;
        } else {
            open = false;
        }
    }
    (count, bytes)
}

/// Whether the name of the long token `token` lies in what was decoded of
/// it, which is all but its last `masked` characters.
fn reaches_name(token: &str, name: &str, masked: usize) -> (r: bool)
    requires
        is_long(token@),
        name@ == long_name(token@),
    ensures
        r == names_long(token@, masked as nat),
{
    proof {
        lemma_long_name_within(token@);
    }
    if masked == 0 {
        true
    } else {
        let length = token.unicode_len();
        masked <= length && 2 + name.unicode_len() <= length - masked
    }
}

/// Finds where arguments of a command stand in the argv string. Aliases are
/// resolved by the mapper that the locator holds.
pub struct ArgLocator<M: AliasToArgMapper> {
    /// Resolves each alias met in the tokens.
    pub mapper: M,
}


/// A step with `lead` put in front of its occurrences.
pub open spec fn led(lead: Seq<Hit>, s: Step) -> Step {
    Step { hits: lead + s.hits, ..s }
}

/// Whether what a step function returned and left behind is what `s` says.
pub open spec fn carried_out(
    s: Step,
    r: Result<(usize, usize), ArgAlias>,
    counts: Seq<usize>,
    before: Seq<Hit>,
    after: Seq<Hit>,
) -> bool {
    match r {
        Ok((extra, cursor)) => {
            &&& s.unresolved is None
            &&& extra == s.extra
            &&& cursor == s.cursor
            &&& counts == s.counts
            &&& after == before + s.hits
        },
        Err(alias) => s.unresolved == Some(alias@),
    }
}

/// Whether the state between two steps is sound: the cursor has not run
/// ahead of token `i`, and no count is over the limit.
pub open spec fn in_bounds(
    tokens: Seq<Seq<char>>,
    targets: Seq<Seq<char>>,
    limit: usize,
    i: int,
    cursor: nat,
    counts: Seq<usize>,
) -> bool {
    &&& 0 <= i <= tokens.len()
    &&& cursor <= token_start(tokens, i)
    &&& token_start(tokens, tokens.len() as int) <= usize::MAX
    &&& counts.len() == targets.len()
}

/// Records an occurrence of target `p`.
fn record(p: usize, location: ArgLocation, counts: &mut Vec<usize>, out: &mut Vec<Hit>)
    requires
        p < old(counts).len(),
        old(counts)@[p as int] < usize::MAX,
    ensures
        final(counts)@ == bump(old(counts)@, p as int),
        final(out)@ == old(out)@ + seq![Hit { target: p, location }],
{
    let seen = counts[p];
    counts.set(p, seen + 1);
    out.push(Hit { target: p, location });
    assert(out@ == old(out)@ + seq![Hit { target: p, location }]);
}

/// Locates an occurrence whose name ends its token: its values are the
/// following tokens that the argument takes.
fn locate_spaced(
    tokens: &[String],
    i: usize,
    info: &ArgInfo,
    p: usize,
    declaration: ArgPart,
    name: ArgPart,
    counts: &mut Vec<usize>,
    out: &mut Vec<Hit>,
) -> (r: (usize, usize))
    requires
        i < tokens.len(),
        p < old(counts).len(),
        old(counts)@[p as int] < usize::MAX,
        token_start(texts(tokens@), tokens.len() as int) <= usize::MAX,
        name.offset + name.length + 1 <= token_start(texts(tokens@), i + 1),
    ensures
        carried_out(
            spaced_step(
                texts(tokens@),
                i as int,
                info@,
                p as int,
                declaration,
                name,
                (name.offset + name.length) as nat,
                old(counts)@,
            ),
            Ok(r),
            final(counts)@,
            old(out)@,
            final(out)@,
        ),
        i + 1 + r.0 <= tokens.len(),
        r.1 <= token_start(texts(tokens@), i + 1 + r.0),
{
    let ghost all = texts(tokens@);
    let (count, bytes) = take_values(tokens, i + 1, info.max_values, info.allow_hyphen_values);
    proof {
        lemma_token_start_monotone(all, i + 1, i + 1 + count);
        lemma_token_start_monotone(all, i + 1 + count, tokens.len() as int);
    }
    let location = if count == 0 {
        ArgLocation::Discrete { declaration, name }
    } else {
        ArgLocation::new_complete(declaration, name, bytes - 1)
    };
    record(p, location, counts, out);
    (count, name.offset + name.length + 1 + bytes)
}

impl<M: AliasToArgMapper> ArgLocator<M> {
    /// A locator that resolves aliases with `mapper`.
    pub fn new(mapper: M) -> (r: Self)
        ensures
            r.mapper == mapper,
    {
        ArgLocator { mapper }
    }

    /// The step for token `i`, a long name with an optional inline value.
    fn locate_long(
        &self,
        tokens: &[String],
        targets: &[String],
        limit: usize,
        i: usize,
        cursor: usize,
        name: String,
        value: Option<String>,
        counts: &mut Vec<usize>,
        out: &mut Vec<Hit>,
    ) -> (r: Result<(usize, usize), ArgAlias>)
        requires
            i < tokens.len(),
            in_bounds(texts(tokens@), texts(targets@), limit, i as int, cursor as nat, old(counts)@),
            is_long(texts(tokens@)[i as int]),
            name@ == long_name(texts(tokens@)[i as int]),
            text_of(value) == long_value(texts(tokens@)[i as int]),
        ensures
            carried_out(
                long_step(
                    self.mapper.args(),
                    texts(tokens@),
                    texts(targets@),
                    limit,
                    i as int,
                    cursor as nat,
                    old(counts)@,
                ),
                r,
                final(counts)@,
                old(out)@,
                final(out)@,
            ),
            r matches Ok((extra, behind)) ==> in_bounds(
                texts(tokens@),
                texts(targets@),
                limit,
                i + 1 + extra,
                behind as nat,
                final(counts)@,
            ),
    {
        let ghost all = texts(tokens@);
        proof {
            lemma_long_bytes(all[i as int]);
            lemma_token_span(all, i as int);
        }
        let token_len = tokens[i].as_str().len();
        let name_len = name.as_str().len();
        let alias = ArgAlias::Long(name);
        let info = match self.mapper.get_arg(&alias) {
            Ok(info) => info,
            Err(_) => {
                return Err(alias);
            },
        };
        match wanted_target(targets, counts, limit, &info.id) {
            None => Ok((0, cursor + token_len + 1)),
            Some(p) => {
                let declaration = ArgPart { offset: cursor, length: LONG_DECLARATION_LENGTH };
                let name_part = ArgPart {
                    offset: cursor + LONG_DECLARATION_LENGTH,
                    length: name_len,
                };
                match value {
                    Some(v) => {
                        let location = ArgLocation::new_complete(
                            declaration,
                            name_part,
                            v.as_str().len(),
                        );
                        record(p, location, counts, out);
                        Ok((0, cursor + token_len + 1))
                    },
                    None => Ok(locate_spaced(tokens, i, info, p, declaration, name_part, counts, out)),
                }
            },
        }
    }

    /// The step for token `i`, a cluster of short names.
    fn locate_cluster(
        &self,
        tokens: &[String],
        targets: &[String],
        limit: usize,
        i: usize,
        start: usize,
        cluster: &Vec<char>,
        masked: &Vec<usize>,
        counts: &mut Vec<usize>,
        out: &mut Vec<Hit>,
    ) -> (r: Result<(usize, usize), ArgAlias>)
        requires
            i < tokens.len(),
            in_bounds(texts(tokens@), texts(targets@), limit, i as int, start as nat, old(counts)@),
            is_short(texts(tokens@)[i as int]),
            cluster@ == short_cluster(texts(tokens@)[i as int]),
        ensures
            carried_out(
                walk(
                    self.mapper.args(),
                    texts(tokens@),
                    nats(masked@),
                    texts(targets@),
                    limit,
                    i as int,
                    start as nat,
                    0,
                    old(counts)@,
                ),
                r,
                final(counts)@,
                old(out)@,
                final(out)@,
            ),
            r matches Ok((extra, behind)) ==> in_bounds(
                texts(tokens@),
                texts(targets@),
                limit,
                i + 1 + extra,
                behind as nat,
                final(counts)@,
            ),
    {
        let ghost all = texts(tokens@);
        let ghost wanted_names = texts(targets@);
        let ghost table = self.mapper.args();
        let ghost hides = nats(masked@);
        let mask = if i < masked.len() {
            masked[i]
        } else {
            0
        };
        assert(mask == hidden(hides, i as int));
        assert(all[i as int].len() == cluster@.len() + 1);
        let ghost whole = walk(table, all, hides, wanted_names, limit, i as int, start as nat, 0, counts@);
        let ghost lead: Seq<Hit> = Seq::empty();
        proof {
            lemma_short_bytes(all[i as int]);
            lemma_chars_le_bytes(cluster@);
            lemma_token_span(all, i as int);
            assert(led(lead, whole) == whole);
        }
        let mut k: usize = 0;
        let mut done = all_targets_reached(counts, limit);
        while k < cluster.len() && !done
            invariant
                i < tokens.len(),
                all == texts(tokens@),
                wanted_names == texts(targets@),
                table == self.mapper.args(),
                hides == nats(masked@),
                mask == hidden(hides, i as int),
                all[i as int].len() == cluster@.len() + 1,
                cluster@ == short_cluster(all[i as int]),
                k <= cluster.len(),
                cluster@.len() <= byte_len(cluster@),
                byte_len(all[i as int]) == 1 + byte_len(cluster@),
                start + byte_len(all[i as int]) + 1 <= token_start(all, i + 1),
                token_start(all, i + 1) <= token_start(all, tokens.len() as int) <= usize::MAX,
                counts@.len() == targets@.len(),
                done == all_reached(counts@, limit),
                out@ == old(out)@ + lead,
                whole == walk(
                    table,
                    all,
                    hides,
                    wanted_names,
                    limit,
                    i as int,
                    start as nat,
                    0,
                    old(counts)@,
                ),
                whole == led(
                    lead,
                    walk(table, all, hides, wanted_names, limit, i as int, start as nat, k as int, counts@),
                ),
            decreases cluster.len() - k,
        {
            if mask > 0 && (mask >= cluster.len() || k >= cluster.len() - mask) {
                proof {
                    lemma_byte_len_split(cluster@, k as int);
                    lemma_chars_le_bytes(cluster@.take(k as int));
                }
                let rest_bytes = tail_byte_len(cluster, k);
                return Ok((0, start + SHORT_DECLARATION_LENGTH + k + rest_bytes + 1));
            }
            let alias = ArgAlias::Short(cluster[k]);
            let info = match self.mapper.get_arg(&alias) {
                Ok(info) => info,
                Err(_) => {
                    return Err(alias);
                },
            };
            let found = wanted_target(targets, counts, limit, &info.id);
            let declaration = ArgPart { offset: start, length: SHORT_DECLARATION_LENGTH };
            let name = ArgPart { offset: start + SHORT_DECLARATION_LENGTH + k, length: SHORT_LENGTH };
            if !info.takes_values {
                match found {
                    Some(p) => {
                        let location = ArgLocation::Discrete { declaration, name };
                        record(p, location, counts, out);
                        done = all_targets_reached(counts, limit);
                        proof {
                            let hit = Hit { target: p, location };
                            let rest = walk(
                                table,
                                all,
                                hides,
                                wanted_names,
                                limit,
                                i as int,
                                start as nat,
                                k + 1,
                                counts@,
                            );
                            assert((lead + seq![hit]) + rest.hits == lead + (seq![hit] + rest.hits));
                            lead = lead + seq![hit];
                            assert(out@ == old(out)@ + lead);
                        }
                    },
                    None => {},
                }
                k = k + 1;
            } else {
                proof {
                    lemma_byte_len_split(cluster@, k + 1);
                    lemma_chars_le_bytes(cluster@.take(k + 1));
                }
                let rest_bytes = tail_byte_len(cluster, k + 1);
                let name_end = start + SHORT_DECLARATION_LENGTH + k + SHORT_LENGTH;
                match found {
                    None => {
                        return Ok((0, name_end + rest_bytes + 1));
                    },
                    Some(p) => {
                        if k + 1 < cluster.len() {
                            proof {
                                let rest = cluster@.skip(k + 1);
                                lemma_chars_le_bytes(rest);
                                assert(rest[0] == cluster@[k + 1]);
                            }
                            let location = if cluster[k + 1] == '=' {
                                ArgLocation::new_complete(declaration, name, rest_bytes - 1)
                            } else {
                                ArgLocation::Stuck {
                                    declaration,
                                    name,
                                    content: ArgPart { offset: name_end, length: rest_bytes },
                                }
                            };
                            record(p, location, counts, out);
                            proof {
                                assert(out@ == old(out)@ + (lead + seq![Hit { target: p, location }]));
                            }
                            return Ok((0, name_end + rest_bytes + 1));
                        } else {
                            proof {
                                assert(cluster@.skip(k + 1).len() == 0);
                            }
                            let ghost s = spaced_step(
                                all,
                                i as int,
                                info@,
                                p as int,
                                declaration,
                                name,
                                name_end as nat,
                                counts@,
                            );
                            let r = locate_spaced(tokens, i, info, p, declaration, name, counts, out);
                            proof {
                                assert(out@ == old(out)@ + (lead + s.hits));
                            }
                            return Ok(r);
                        }
                    },
                }
            }
        }
        if k < cluster.len() {
            Ok((0, start))
        } else {
            Ok((0, start + SHORT_DECLARATION_LENGTH + cluster.len() + 1))
        }
    }
}


/// A result of the scan with `lead` put in front of its occurrences.
pub open spec fn led_result(lead: Seq<Hit>, r: Result<Seq<Hit>, AliasKey>) -> Result<
    Seq<Hit>,
    AliasKey,
> {
    match r {
        Ok(rest) => Ok(lead + rest),
        Err(key) => Err(key),
    }
}

/// Whether `found` shows `hits`, each with the target it belongs to in
/// place of that target's index.
pub open spec fn names_hits(
    found: Seq<(&String, ArgLocation)>,
    targets: Seq<String>,
    hits: Seq<Hit>,
) -> bool {
    &&& found.len() == hits.len()
    &&& forall|k: int|
        0 <= k < hits.len() ==> {
            &&& (#[trigger] hits[k]).target < targets.len()
            &&& *found[k].0 == targets[hits[k].target as int]
            &&& found[k].1 == hits[k].location
        }
}

/// The first of `hits`, if there is one.
pub open spec fn first_location(hits: Seq<Hit>) -> Option<ArgLocation> {
    if hits.len() > 0 {
        Some(hits[0].location)
    } else {
        None
    }
}

/// Puts each hit's target in place of its index.
fn name_hits<'a>(targets: &'a [String], hits: &Vec<Hit>) -> (found: Vec<(&'a String, ArgLocation)>)
    requires
        in_range(hits@, targets@.len()),
    ensures
        names_hits(found@, targets@, hits@),
{
    let mut found: Vec<(&'a String, ArgLocation)> = Vec::new();
    let mut k: usize = 0;
    while k < hits.len()
        invariant
            k <= hits.len(),
            in_range(hits@, targets@.len()),
            names_hits(found@, targets@, hits@.take(k as int)),
        decreases hits.len() - k,
    {
        let hit = hits[k];
        assert(hits@[k as int].target < targets@.len());
        found.push((&targets[hit.target], hit.location));
        k = k + 1;
    }
    assert(hits@.take(k as int) == hits@);
    found
}

impl<M: AliasToArgMapper> ArgLocator<M> {
    /// Scans the texts `args` from left to right for occurrences of the
    /// arguments that `targets` name, and stops where every target was
    /// found `limit_per_target` times. Each hit holds the index of its
    /// target. Fails with the first alias that the scan meets and the
    /// mapper does not resolve.
    pub fn locate_text(&self, args: &[String], targets: &[String], limit_per_target: usize) -> (r:
        Result<Vec<Hit>, ArgAlias>)
        requires
            token_start(texts(args@), args.len() as int) <= usize::MAX,
        ensures
            match r {
                Ok(hits) => located(
                    self.mapper.args(),
                    texts(args@),
                    texts(targets@),
                    limit_per_target,
                ) == Ok::<Seq<Hit>, AliasKey>(hits@),
                Err(alias) => located(
                    self.mapper.args(),
                    texts(args@),
                    texts(targets@),
                    limit_per_target,
                ) == Err::<Seq<Hit>, AliasKey>(alias@),
            },
            r matches Ok(hits) ==> in_range(hits@, targets@.len()) && forall|p: int|
                0 <= p < targets@.len() ==> #[trigger] count_for(hits@, p) <= limit_per_target,
    {
        let masked: Vec<usize> = Vec::new();
        assert(nats(masked@) == Seq::<nat>::empty());
        self.scan_tokens(args, &masked, targets, limit_per_target)
    }

    /// Scans `args`, of which the last `masked[i]` characters of token `i`
    /// stand for bytes that could not be decoded.
    fn scan_tokens(
        &self,
        args: &[String],
        masked: &Vec<usize>,
        targets: &[String],
        limit_per_target: usize,
    ) -> (r: Result<Vec<Hit>, ArgAlias>)
        requires
            token_start(texts(args@), args.len() as int) <= usize::MAX,
        ensures
            match r {
                Ok(hits) => located_under(
                    self.mapper.args(),
                    texts(args@),
                    nats(masked@),
                    texts(targets@),
                    limit_per_target,
                ) == Ok::<Seq<Hit>, AliasKey>(hits@),
                Err(alias) => located_under(
                    self.mapper.args(),
                    texts(args@),
                    nats(masked@),
                    texts(targets@),
                    limit_per_target,
                ) == Err::<Seq<Hit>, AliasKey>(alias@),
            },
            r matches Ok(hits) ==> in_range(hits@, targets@.len()) && forall|p: int|
                0 <= p < targets@.len() ==> #[trigger] count_for(hits@, p) <= limit_per_target,
    {
        let ghost all = texts(args@);
        let ghost names = texts(targets@);
        let ghost table = self.mapper.args();
        let ghost hides = nats(masked@);
        let ghost whole = located_under(table, all, hides, names, limit_per_target);
        let count = targets.len();
        proof {
            assert(names.len() == count);
            lemma_at_most_limit(table, all, hides, names, limit_per_target);
        }
        let mut counts: Vec<usize> = Vec::new();
        while counts.len() < targets.len()
            invariant
                counts.len() <= targets.len(),
                counts@ == Seq::new(counts.len() as nat, |p: int| 0usize),
            decreases targets.len() - counts.len(),
        {
            counts.push(0);
        }
        assert(counts@ == Seq::new(names.len(), |p: int| 0usize));
        let mut out: Vec<Hit> = Vec::new();
        let mut i: usize = 0;
        let mut cursor: usize = 0;
        let mut done = all_targets_reached(&counts, limit_per_target);
        assert(led_result(out@, whole) == whole) by {
            match whole {
                Ok(hits) => assert(out@ + hits == hits),
                Err(_) => {},
            }
        }
        while i < args.len() && !done
            invariant
                all == texts(args@),
                names == texts(targets@),
                table == self.mapper.args(),
                hides == nats(masked@),
                whole == located_under(table, all, hides, names, limit_per_target),
                in_bounds(all, names, limit_per_target, i as int, cursor as nat, counts@),
                done == all_reached(counts@, limit_per_target),
                whole == led_result(
                    out@,
                    scan(table, all, hides, names, limit_per_target, i as int, cursor as nat, counts@),
                ),
            decreases args.len() - i,
        {
            let ghost before = out@;
            let ghost s = step(table, all, hides, names, limit_per_target, i as int, cursor as nat, counts@);
            proof {
                lemma_token_span(all, i as int);
            }
            let mask = if i < masked.len() {
                masked[i]
            } else {
                0
            };
            assert(mask == hidden(hides, i as int));
            let r = match classify(args[i].as_str()) {
                Token::Long { name, value } => if !reaches_name(
                    args[i].as_str(),
                    name.as_str(),
                    mask,
                ) {
                    Ok((0, cursor + args[i].as_str().len() + 1))
                } else {
                    self.locate_long(
                        args,
                        targets,
                        limit_per_target,
                        i,
                        cursor,
                        name,
                        value,
                        &mut counts,
                        &mut out,
                    )
                },
                Token::Short { cluster } => self.locate_cluster(
                    args,
                    targets,
                    limit_per_target,
                    i,
                    cursor,
                    &cluster,
                    masked,
                    &mut counts,
                    &mut out,
                ),
                Token::Plain => Ok((0, cursor + args[i].as_str().len() + 1)),
            };
            match r {
                Err(alias) => {
                    return Err(alias);
                },
                Ok((extra, behind)) => {
                    proof {
                        let rest = scan(
                            table,
                            all,
                            hides,
                            names,
                            limit_per_target,
                            i + 1 + extra,
                            behind as nat,
                            counts@,
                        );
                        match rest {
                            Ok(hits) => assert(before + (s.hits + hits) == (before + s.hits)
                                + hits),
                            Err(_) => {},
                        }
                    }
                    i = i + 1 + extra;
                    cursor = behind;
                    done = all_targets_reached(&counts, limit_per_target);
                },
            }
        }
        proof {
            match whole {
                Ok(hits) => assert(out@ + Seq::<Hit>::empty() == out@),
                Err(_) => {},
            }
        }
        Ok(out)
    }
}


impl<M: AliasToArgMapper> ArgLocator<M> {
    /// The occurrences of the arguments that `targets` name, in the order in
    /// which they stand in `args`, at most `limit_per_target` for each, every
    /// one with the target it belongs to. A target that does not occur has
    /// no entry. Fails with the first alias that the scan meets and the
    /// mapper does not resolve.
    pub fn try_get_locations<'a>(
        &self,
        args: &[String],
        targets: &'a [String],
        limit_per_target: usize,
    ) -> (r: Result<Vec<(&'a String, ArgLocation)>, ArgAlias>)
        requires
            token_start(texts(args@), args.len() as int) <= usize::MAX,
        ensures
            match located(self.mapper.args(), texts(args@), texts(targets@), limit_per_target) {
                Ok(hits) => r matches Ok(found) && names_hits(found@, targets@, hits),
                Err(key) => r matches Err(alias) && alias@ == key,
            },
    {
        match self.locate_text(args, targets, limit_per_target) {
            Ok(hits) => Ok(name_hits(targets, &hits)),
            Err(alias) => Err(alias),
        }
    }

    /// The occurrences of the arguments that `targets` name, in the order in
    /// which they stand in `args`, at most `limit_per_target` for each, every
    /// one with the target it belongs to. A target that does not occur has
    /// no entry.
    ///
    /// The mapper must resolve every alias that the scan meets: an alias
    /// that it does not know shows that the command and the tokens do not
    /// belong together.
    pub fn get_locations<'a>(
        &self,
        args: &[String],
        targets: &'a [String],
        limit_per_target: usize,
    ) -> (found: Vec<(&'a String, ArgLocation)>)
        requires
            token_start(texts(args@), args.len() as int) <= usize::MAX,
            located(self.mapper.args(), texts(args@), texts(targets@), limit_per_target) is Ok,
        ensures
            names_hits(
                found@,
                targets@,
                located(self.mapper.args(), texts(args@), texts(targets@), limit_per_target)->Ok_0,
            ),
    {
        match self.try_get_locations(args, targets, limit_per_target) {
            Ok(found) => found,
            Err(_) => Vec::new(),
        }
    }

    /// The first occurrence of the argument `arg` in `args`, or `None` where
    /// it does not occur. Fails with the first alias that the scan meets and
    /// the mapper does not resolve.
    pub fn try_get_location_first(&self, args: &[String], arg: &str) -> (r: Result<
        Option<ArgLocation>,
        ArgAlias,
    >)
        requires
            token_start(texts(args@), args.len() as int) <= usize::MAX,
        ensures
            match located(self.mapper.args(), texts(args@), seq![arg@], 1) {
                Ok(hits) => r == Ok::<Option<ArgLocation>, ArgAlias>(first_location(hits)),
                Err(key) => r matches Err(alias) && alias@ == key,
            },
    {
        let mut targets: Vec<String> = Vec::new();
        targets.push(arg.to_owned());
        assert(texts(targets@) == seq![arg@]);
        match self.locate_text(args, targets.as_slice(), 1) {
            Ok(hits) => if hits.len() > 0 {
                Ok(Some(hits[0].location))
            } else {
                Ok(None)
            },
            Err(alias) => Err(alias),
        }
    }

    /// The first occurrence of the argument `arg` in `args`, or `None` where
    /// it does not occur.
    ///
    /// The mapper must resolve every alias that the scan meets.
    pub fn get_location_first(&self, args: &[String], arg: &str) -> (r: Option<ArgLocation>)
        requires
            token_start(texts(args@), args.len() as int) <= usize::MAX,
            located(self.mapper.args(), texts(args@), seq![arg@], 1) is Ok,
        ensures
            r == first_location(located(self.mapper.args(), texts(args@), seq![arg@], 1)->Ok_0),
    {
        match self.try_get_location_first(args, arg) {
            Ok(location) => location,
            Err(_) => None,
        }
    }
}


impl<M: AliasToArgMapper> ArgLocator<M> {
    /// Offset and length of the first occurrence of the argument `arg` in
    /// `args`, or `None` where it does not occur. An occurrence with a value
    /// that is not empty is shown by the value alone, or with
    /// `include_arg_name` from its name to the end of the value; any other
    /// by its name. A long name is shown with its hyphens, a short name by
    /// its own byte.
    ///
    /// The mapper must resolve every alias that the scan meets.
    pub fn get_location(&self, args: &[String], arg: &str, include_arg_name: bool) -> (r: Option<
        (usize, usize),
    >)
        requires
            token_start(texts(args@), args.len() as int) <= usize::MAX,
            located(self.mapper.args(), texts(args@), seq![arg@], 1) is Ok,
        ensures
            r == match first_location(
                located(self.mapper.args(), texts(args@), seq![arg@], 1)->Ok_0,
            ) {
                Some(location) => Some(location.span_of(include_arg_name)),
                None => None,
            },
    {
        proof {
            lemma_in_order(self.mapper.args(), texts(args@), Seq::empty(), seq![arg@], 1);
        }
        match self.get_location_first(args, arg) {
            Some(location) => Some(location.span(include_arg_name)),
            None => None,
        }
    }
}

/// Why arguments could not be searched.
#[derive(Debug, PartialEq, Eq)]
pub enum LocateError {
    /// The argv string is too long for its offsets to be counted.
    TooLong,
    /// The scan met an alias that the mapper does not resolve: the command
    /// and the tokens do not belong together.
    UnknownAlias(ArgAlias),
}

/// Whether `r` is what a scan of `tokens` owes: the outcome of the scan, or
/// `TooLong` where the argv string does not fit the machine's integers.
pub open spec fn answers<T>(
    tokens: Seq<Seq<char>>,
    outcome: Result<T, AliasKey>,
    r: Result<T, LocateError>,
) -> bool {
    if token_start(tokens, tokens.len() as int) > usize::MAX {
        r matches Err(LocateError::TooLong)
    } else {
        match outcome {
            Ok(found) => r matches Ok(given) && given == found,
            Err(key) => r matches Err(LocateError::UnknownAlias(alias)) && alias@ == key,
        }
    }
}

/// The occurrences of a scan as a sequence of hits.
pub open spec fn shown(outcome: Result<Vec<Hit>, LocateError>) -> Result<Seq<Hit>, LocateError> {
    match outcome {
        Ok(hits) => Ok(hits@),
        Err(error) => Err(error),
    }
}

impl<M: AliasToArgMapper> ArgLocator<M> {
    /// Scans `args` from left to right for occurrences of the arguments that
    /// `targets` name, and stops where every target was found
    /// `limit_per_target` times. The arguments are read as text under
    /// `mode`, and all offsets and lengths count the bytes of that text. Each
    /// hit holds the index of its target; a target that does not occur has
    /// none, and none has more than `limit_per_target`. What could not be
    /// decoded of an argument names no argument and is never an error.
    pub fn locate(
        &self,
        args: &Vec<Vec<u8>>,
        targets: &[String],
        limit_per_target: usize,
        mode: LengthMode,
    ) -> (r: Result<Vec<Hit>, LocateError>)
        ensures
            answers(
                texts_under(all_bytes(args@), mode),
                located_under(
                    self.mapper.args(),
                    texts_under(all_bytes(args@), mode),
                    masked_under(all_bytes(args@), mode),
                    texts(targets@),
                    limit_per_target,
                ),
                shown(r),
            ),
            r matches Ok(hits) ==> in_range(hits@, targets@.len()) && forall|p: int|
                0 <= p < targets@.len() ==> #[trigger] count_for(hits@, p) <= limit_per_target,
    {
        let (tokens, masked) = read_tokens(args, mode);
        if !offsets_fit(tokens.as_slice()) {
            return Err(LocateError::TooLong);
        }
        match self.scan_tokens(tokens.as_slice(), &masked, targets, limit_per_target) {
            Ok(hits) => Ok(hits),
            Err(alias) => Err(LocateError::UnknownAlias(alias)),
        }
    }
}

/// The span that shows the first of `hits`, if there is one.
pub open spec fn first_span(hits: Seq<Hit>, include_arg_name: bool) -> Option<(usize, usize)> {
    match first_location(hits) {
        Some(location) => Some(location.span_of(include_arg_name)),
        None => None,
    }
}

impl<M: AliasToArgMapper> ArgLocator<M> {
    /// Offset and length of the first occurrence of the argument `arg` in
    /// `args`, read as text under `mode`; `None` where it does not occur.
    /// An occurrence with a value that is not empty is shown by the value
    /// alone, or with `include_arg_name` from its name to the end of the
    /// value; any other by its name. A long name is shown with its hyphens,
    /// a short name by its own byte.
    pub fn try_get_location(
        &self,
        args: &Vec<Vec<u8>>,
        arg: &str,
        include_arg_name: bool,
        mode: LengthMode,
    ) -> (r: Result<Option<(usize, usize)>, LocateError>)
        ensures
            answers(
                texts_under(all_bytes(args@), mode),
                match located_under(
                    self.mapper.args(),
                    texts_under(all_bytes(args@), mode),
                    masked_under(all_bytes(args@), mode),
                    seq![arg@],
                    1,
                ) {
                    Ok(hits) => Ok(first_span(hits, include_arg_name)),
                    Err(key) => Err(key),
                },
                r,
            ),
    {
        let (tokens, masked) = read_tokens(args, mode);
        if !offsets_fit(tokens.as_slice()) {
            return Err(LocateError::TooLong);
        }
        let mut targets: Vec<String> = Vec::new();
        targets.push(arg.to_owned());
        assert(texts(targets@) == seq![arg@]);
        proof {
            lemma_in_order(self.mapper.args(), texts(tokens@), nats(masked@), seq![arg@], 1);
        }
        match self.scan_tokens(tokens.as_slice(), &masked, targets.as_slice(), 1) {
            Ok(hits) => if hits.len() > 0 {
                Ok(Some(hits[0].location.span(include_arg_name)))
            } else {
                Ok(None)
            },
            Err(alias) => Err(LocateError::UnknownAlias(alias)),
        }
    }
}

} // verus!
