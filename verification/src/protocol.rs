//! The line protocol: one command per line, fields separated by a tab, one
//! reply line per command.

use crate::cache::Cache;
use crate::config::CacheConfig;
use crate::limits::{check_put, put_refusal, reason_spec, BadRequest};
use crate::model::CacheModel;
use crate::text::{
    chars_of, cut, decimal, non_empty, parse_u64, parse_unsigned, pieces, push_decimal,
    split_ranges, trim_line_end, trimmed_len, within,
};
use crate::types::{key_views, tag_views, CacheStats, Key, Tag};
use vstd::prelude::*;

verus! {

/// Why a line is no command.
#[derive(Debug, Clone, Copy, PartialEq, Eq, Structural)]
pub enum ProtocolError {
    MissingKey,
    MissingTag,
    UnknownCommand,
}

/// A command of the line protocol.
#[derive(Debug)]
pub enum Command {
    Put { key: Key, ttl_ms: Option<u64>, tags: Vec<Tag>, value: String },
    Get { key: Key },
    Del { key: Key },
    InvTag { tag: Tag },
    KeysByTag { tag: Tag },
    Stats,
    Flush,
}

/// A command, as mathematical values.
pub enum CommandView {
    Put { key: Seq<char>, ttl_ms: Option<u64>, tags: Seq<Seq<char>>, value: Seq<char> },
    Get { key: Seq<char> },
    Del { key: Seq<char> },
    InvTag { tag: Seq<char> },
    KeysByTag { tag: Seq<char> },
    Stats,
    Flush,
}

impl View for Command {
    type V = CommandView;

    open spec fn view(&self) -> CommandView {
        match *self {
            Command::Put { key, ttl_ms, tags, value } => CommandView::Put {
                key: key@,
                ttl_ms,
                tags: tag_views(tags@),
                value: value@,
            },
            Command::Get { key } => CommandView::Get { key: key@ },
            Command::Del { key } => CommandView::Del { key: key@ },
            Command::InvTag { tag } => CommandView::InvTag { tag: tag@ },
            Command::KeysByTag { tag } => CommandView::KeysByTag { tag: tag@ },
            Command::Stats => CommandView::Stats,
            Command::Flush => CommandView::Flush,
        }
    }
}

/// What a line turns out to be.
#[derive(Debug)]
pub enum Parsed {
    /// Nothing but line ends: no reply is due.
    Empty,
    Command(Command),
    Error(ProtocolError),
}

/// What a line turns out to be, as mathematical values.
pub enum ParsedView {
    Empty,
    Command(CommandView),
    Error(ProtocolError),
}

impl View for Parsed {
    type V = ParsedView;

    open spec fn view(&self) -> ParsedView {
        match *self {
            Parsed::Empty => ParsedView::Empty,
            Parsed::Command(c) => ParsedView::Command(c@),
            Parsed::Error(e) => ParsedView::Error(e),
        }
    }
}

/// Whether `c` is `upper`, or the lower-case form of the capital `upper`.
pub open spec fn same_letter(c: char, upper: char) -> bool {
    c == upper || ('A' <= upper <= 'Z' && c as u32 == upper as u32 + 32)
}

/// Whether a field is the verb `name`, written in capitals, in any mix of
/// upper and lower case.
pub open spec fn is_verb(field: Seq<char>, name: Seq<char>) -> bool {
    &&& field.len() == name.len()
    &&& forall|i: int| 0 <= i < name.len() ==> same_letter(#[trigger] field[i], name[i])
}

/// Whether an optional field says that there is nothing: a single hyphen,
/// or no character at all.
pub open spec fn is_absent(field: Seq<char>) -> bool {
    field.len() == 0 || (field.len() == 1 && field[0] == '-')
}

/// The time-to-live that a field gives, in milliseconds: none where the
/// field is absent, and none where it does not write a 64-bit number.
pub open spec fn ttl_of(field: Seq<char>) -> Option<u64> {
    if is_absent(field) {
        None
    } else {
        match parse_unsigned(field, u64::MAX as nat) {
            Some(n) => Some(n as u64),
            None => None,
        }
    }
}

/// The tags that a field gives: the pieces between its commas that are not
/// empty; none where the field is absent.
pub open spec fn tags_of_field(field: Seq<char>) -> Seq<Seq<char>> {
    if is_absent(field) {
        Seq::empty()
    } else {
        non_empty(pieces(field, ',', None))
    }
}

/// The field at `i`, or `fallback` where the line has fewer fields.
pub open spec fn field_or(fields: Seq<Seq<char>>, i: int, fallback: Seq<char>) -> Seq<char> {
    if i < fields.len() {
        fields[i]
    } else {
        fallback
    }
}

/// The verb `PUT`.
pub open spec fn verb_put() -> Seq<char> {
    seq!['P', 'U', 'T']
}

/// The verb `GET`.
pub open spec fn verb_get() -> Seq<char> {
    seq!['G', 'E', 'T']
}

/// The verb `DEL`.
pub open spec fn verb_del() -> Seq<char> {
    seq!['D', 'E', 'L']
}

/// The verb `INV_TAG`.
pub open spec fn verb_inv_tag() -> Seq<char> {
    seq!['I', 'N', 'V', '_', 'T', 'A', 'G']
}

/// The verb `KEYS_BY_TAG`.
pub open spec fn verb_keys_by_tag() -> Seq<char> {
    seq!['K', 'E', 'Y', 'S', '_', 'B', 'Y', '_', 'T', 'A', 'G']
}

/// The verb `KEYS`, another name of `KEYS_BY_TAG`.
pub open spec fn verb_keys() -> Seq<char> {
    seq!['K', 'E', 'Y', 'S']
}

/// The verb `STATS`.
pub open spec fn verb_stats() -> Seq<char> {
    seq!['S', 'T', 'A', 'T', 'S']
}

/// The verb `FLUSH`.
pub open spec fn verb_flush() -> Seq<char> {
    seq!['F', 'L', 'U', 'S', 'H']
}

/// What the fields of a line say. The first field is the verb; `PUT` takes
/// a key that is not empty, a time-to-live, tags and a value, of which all
/// but the key may be missing; the other verbs take the field after them,
/// where they take any.
pub open spec fn command_of(fields: Seq<Seq<char>>) -> ParsedView {
    let verb = fields[0];
    if is_verb(verb, verb_put()) {
        if fields.len() >= 2 && fields[1].len() > 0 {
            ParsedView::Command(
                CommandView::Put {
                    key: fields[1],
                    ttl_ms: ttl_of(field_or(fields, 2, seq!['-'])),
                    tags: tags_of_field(field_or(fields, 3, seq!['-'])),
                    value: field_or(fields, 4, Seq::empty()),
                },
            )
        } else {
            ParsedView::Error(ProtocolError::MissingKey)
        }
    } else if is_verb(verb, verb_get()) {
        if fields.len() >= 2 {
            ParsedView::Command(CommandView::Get { key: fields[1] })
        } else {
            ParsedView::Error(ProtocolError::MissingKey)
        }
    } else if is_verb(verb, verb_del()) {
        if fields.len() >= 2 {
            ParsedView::Command(CommandView::Del { key: fields[1] })
        } else {
            ParsedView::Error(ProtocolError::MissingKey)
        }
    } else if is_verb(verb, verb_inv_tag()) {
        if fields.len() >= 2 {
            ParsedView::Command(CommandView::InvTag { tag: fields[1] })
        } else {
            ParsedView::Error(ProtocolError::MissingTag)
        }
    } else if is_verb(verb, verb_keys_by_tag()) || is_verb(verb, verb_keys()) {
        if fields.len() >= 2 {
            ParsedView::Command(CommandView::KeysByTag { tag: fields[1] })
        } else {
            ParsedView::Error(ProtocolError::MissingTag)
        }
    } else if is_verb(verb, verb_stats()) {
        ParsedView::Command(CommandView::Stats)
    } else if is_verb(verb, verb_flush()) {
        ParsedView::Command(CommandView::Flush)
    } else {
        ParsedView::Error(ProtocolError::UnknownCommand)
    }
}

/// What a line says: nothing where only line ends are on it; else what its
/// fields say, of which there are at most five, the fifth holding the rest
/// of the line.
pub open spec fn parse_spec(line: Seq<char>) -> ParsedView {
    let text = trim_line_end(line);
    if text.len() == 0 {
        ParsedView::Empty
    } else {
        command_of(pieces(text, '\t', Some(5nat)))
    }
}

fn verb_matches(chars: &Vec<char>, start: usize, end: usize, name: &Vec<char>) -> (same: bool)
    requires
        start <= end <= chars.len(),
    ensures
        same == is_verb(chars@.subrange(start as int, end as int), name@),
{
    let ghost field = chars@.subrange(start as int, end as int);
    if end - start != name.len() {
        return false;
    }
    let mut i: usize = 0;
    while i < name.len()
        invariant
            0 <= i <= name.len(),
            start <= end <= chars.len(),
            end - start == name.len(),
            field == chars@.subrange(start as int, end as int),
            forall|n: int| 0 <= n < i ==> same_letter(#[trigger] field[n], name@[n]),
        decreases name.len() - i,
    {
        let c: char = chars[start + i];
        let upper: char = name[i];
        assert(field[i as int] == c);
        let same = c == upper || ('A' <= upper && upper <= 'Z' && c as u32 == upper as u32 + 32);
        if !same {
            return false;
        }
        i = i + 1;
    }
    true
}

fn range_is_absent(chars: &Vec<char>, start: usize, end: usize) -> (absent: bool)
    requires
        start <= end <= chars.len(),
    ensures
        absent == is_absent(chars@.subrange(start as int, end as int)),
{
    if start == end {
        true
    } else if end - start == 1 {
        assert(chars@.subrange(start as int, end as int)[0] == chars@[start as int]);
        chars[start] == '-'
    } else {
        false
    }
}

/// The text of a range of a line.
fn slice<'a>(line: &'a str, range: (usize, usize)) -> (text: &'a str)
    requires
        range.0 <= range.1 <= line@.len(),
    ensures
        text@ == line@.subrange(range.0 as int, range.1 as int),
{
    line.substring_char(range.0, range.1)
}

fn read_tags(line: &str, chars: &Vec<char>, start: usize, end: usize) -> (tags: Vec<Tag>)
    requires
        chars@ == line@,
        start <= end <= chars.len(),
    ensures
        tag_views(tags@) == tags_of_field(chars@.subrange(start as int, end as int)),
{
    let mut tags: Vec<Tag> = Vec::new();
    if range_is_absent(chars, start, end) {
        assert(tag_views(tags@) =~= Seq::<Seq<char>>::empty());
        return tags;
    }
    let ranges = split_ranges(chars, start, end, ',', None);
    let ghost all = cut(chars@, ranges@);
    let mut i: usize = 0;
    assert(all.take(0) =~= Seq::<Seq<char>>::empty());
    assert(tag_views(tags@) =~= Seq::<Seq<char>>::empty());
    while i < ranges.len()
        invariant
            0 <= i <= ranges.len(),
            chars@ == line@,
            end <= chars.len(),
            within(ranges@, end as int),
            all == cut(chars@, ranges@),
            tag_views(tags@) == non_empty(all.take(i as int)),
        decreases ranges.len() - i,
    {
        let range = ranges[i];
        let ghost before = tag_views(tags@);
        proof {
            assert(all.take(i + 1).drop_last() =~= all.take(i as int));
            assert(all.take(i + 1).last() == all[i as int]);
        }
        if range.1 > range.0 {
            tags.push(Tag::new(slice(line, range)));
            proof {
                assert(tag_views(tags@) =~= before.push(all[i as int]));
            }
        }
        i = i + 1;
    }
    proof {
        assert(all.take(all.len() as int) =~= all);
    }
    tags
}

/// Reads one line of the protocol.
pub fn parse_line(line: &str) -> (parsed: Parsed)
    ensures
        parsed@ == parse_spec(line@),
{
    let chars = chars_of(line);
    let end = trimmed_len(&chars);
    if end == 0 {
        return Parsed::Empty;
    }
    let ghost text = trim_line_end(line@);
    assert(chars@.subrange(0, end as int) =~= text);
    let fields = split_ranges(&chars, 0, end, '\t', Some(5));
    let ghost f = cut(chars@, fields@);
    assert(f == pieces(text, '\t', Some(5nat)));
    let n = fields.len();
    let verb = fields[0];
    assert(f[0] == chars@.subrange(verb.0 as int, verb.1 as int));
    assert(forall|i: int| 0 <= i < n ==> f[i] == chars@.subrange(
        (#[trigger] fields[i]).0 as int,
        fields[i].1 as int,
    ));
    let put: Vec<char> = vec!['P', 'U', 'T'];
    let get: Vec<char> = vec!['G', 'E', 'T'];
    let del: Vec<char> = vec!['D', 'E', 'L'];
    let inv_tag: Vec<char> = vec!['I', 'N', 'V', '_', 'T', 'A', 'G'];
    let keys_by_tag: Vec<char> = vec!['K', 'E', 'Y', 'S', '_', 'B', 'Y', '_', 'T', 'A', 'G'];
    let keys: Vec<char> = vec!['K', 'E', 'Y', 'S'];
    let stats: Vec<char> = vec!['S', 'T', 'A', 'T', 'S'];
    let flush: Vec<char> = vec!['F', 'L', 'U', 'S', 'H'];
    proof {
        assert(put@ =~= verb_put());
        assert(get@ =~= verb_get());
        assert(del@ =~= verb_del());
        assert(inv_tag@ =~= verb_inv_tag());
        assert(keys_by_tag@ =~= verb_keys_by_tag());
        assert(keys@ =~= verb_keys());
        assert(stats@ =~= verb_stats());
        assert(flush@ =~= verb_flush());
    }
    if verb_matches(&chars, verb.0, verb.1, &put) {
        if n >= 2 && fields[1].1 > fields[1].0 {
            let key = Key::new(slice(line, fields[1]));
            let ttl_ms: Option<u64> = if n >= 3 {
                if range_is_absent(&chars, fields[2].0, fields[2].1) {
                    None
                } else {
                    parse_u64(&chars, fields[2].0, fields[2].1)
                }
            } else {
                None
            };
            let tags: Vec<Tag> = if n >= 4 {
                read_tags(line, &chars, fields[3].0, fields[3].1)
            } else {
                Vec::new()
            };
            let value: String = if n >= 5 {
                slice(line, fields[4]).to_owned()
            } else {
                String::new()
            };
            proof {
                let dash: Seq<char> = seq!['-'];
                assert(is_absent(dash));
                if n < 4 {
                    assert(tag_views(tags@) =~= Seq::<Seq<char>>::empty());
                }
            }
            Parsed::Command(Command::Put { key, ttl_ms, tags, value })
        } else {
            Parsed::Error(ProtocolError::MissingKey)
        }
    } else if verb_matches(&chars, verb.0, verb.1, &get) {
        if n >= 2 {
            Parsed::Command(Command::Get { key: Key::new(slice(line, fields[1])) })
        } else {
            Parsed::Error(ProtocolError::MissingKey)
        }
    } else if verb_matches(&chars, verb.0, verb.1, &del) {
        if n >= 2 {
            Parsed::Command(Command::Del { key: Key::new(slice(line, fields[1])) })
        } else {
            Parsed::Error(ProtocolError::MissingKey)
        }
    } else if verb_matches(&chars, verb.0, verb.1, &inv_tag) {
        if n >= 2 {
            Parsed::Command(Command::InvTag { tag: Tag::new(slice(line, fields[1])) })
        } else {
            Parsed::Error(ProtocolError::MissingTag)
        }
    } else if verb_matches(&chars, verb.0, verb.1, &keys_by_tag) || verb_matches(
        &chars,
        verb.0,
        verb.1,
        &keys,
    ) {
        if n >= 2 {
            Parsed::Command(Command::KeysByTag { tag: Tag::new(slice(line, fields[1])) })
        } else {
            Parsed::Error(ProtocolError::MissingTag)
        }
    } else if verb_matches(&chars, verb.0, verb.1, &stats) {
        Parsed::Command(Command::Stats)
    } else if verb_matches(&chars, verb.0, verb.1, &flush) {
        Parsed::Command(Command::Flush)
    } else {
        Parsed::Error(ProtocolError::UnknownCommand)
    }
}

/// The reply to a command.
#[derive(Debug)]
pub enum Reply {
    Stored,
    Value(String),
    NotFound,
    Deleted(bool),
    Invalidated(usize),
    Keys(Vec<Key>),
    Stats(CacheStats),
    Flushed(usize),
    Error(ProtocolError),
    Refused(BadRequest),
}

/// The reply to a command, as mathematical values.
pub enum ReplyView {
    Stored,
    Value(Seq<char>),
    NotFound,
    Deleted(bool),
    Invalidated(usize),
    Keys(Seq<Seq<char>>),
    Stats(CacheStats),
    Flushed(usize),
    Error(ProtocolError),
    Refused(BadRequest),
}

impl View for Reply {
    type V = ReplyView;

    open spec fn view(&self) -> ReplyView {
        match *self {
            Reply::Stored => ReplyView::Stored,
            Reply::Value(v) => ReplyView::Value(v@),
            Reply::NotFound => ReplyView::NotFound,
            Reply::Deleted(found) => ReplyView::Deleted(found),
            Reply::Invalidated(n) => ReplyView::Invalidated(n),
            Reply::Keys(keys) => ReplyView::Keys(key_views(keys@)),
            Reply::Stats(stats) => ReplyView::Stats(stats),
            Reply::Flushed(n) => ReplyView::Flushed(n),
            Reply::Error(e) => ReplyView::Error(e),
            Reply::Refused(r) => ReplyView::Refused(r),
        }
    }
}

/// A time-to-live of whole milliseconds, in nanoseconds.
pub open spec fn ms_to_ns(ttl_ms: Option<u64>) -> Option<u128> {
    match ttl_ms {
        Some(ms) => Some((ms * 1_000_000) as u128),
        None => None,
    }
}

/// The cache after a command. A `PUT` beyond the bounds changes nothing.
pub open spec fn outcome(
    m: CacheModel,
    limits: CacheConfig,
    c: CommandView,
    now: u128,
    wall_ms: Option<u64>,
) -> CacheModel {
    match c {
        CommandView::Put { key, ttl_ms, tags, value } => if put_refusal(limits, key, value, tags)
            is Some {
            m
        } else {
            m.put(key, value, tags, ms_to_ns(ttl_ms), now, wall_ms)
        },
        CommandView::Get { key } => m.get(key, now),
        CommandView::Del { key } => m.invalidate_key(key),
        CommandView::InvTag { tag } => m.invalidate_tag(tag),
        CommandView::KeysByTag { tag } => m,
        CommandView::Stats => m,
        CommandView::Flush => m.flush_all(),
    }
}

/// Whether `reply` is the reply that a command is due from a cache. The
/// keys of a tag come in no particular order, each once.
pub open spec fn answers(
    reply: ReplyView,
    m: CacheModel,
    limits: CacheConfig,
    c: CommandView,
    now: u128,
) -> bool {
    match c {
        CommandView::Put { key, ttl_ms, tags, value } => reply == (match put_refusal(
            limits,
            key,
            value,
            tags,
        ) {
            Some(r) => ReplyView::Refused(r),
            None => ReplyView::Stored,
        }),
        CommandView::Get { key } => reply == (match m.lookup(key, now) {
            Some(v) => ReplyView::Value(v),
            None => ReplyView::NotFound,
        }),
        CommandView::Del { key } => reply == ReplyView::Deleted(m.entries.contains_key(key)),
        CommandView::InvTag { tag } => reply == ReplyView::Invalidated(m.tag_count(tag)),
        CommandView::KeysByTag { tag } => reply matches ReplyView::Keys(keys)
            && keys.no_duplicates() && keys.to_set() == m.keys_by_tag(tag, now),
        CommandView::Stats => reply == ReplyView::Stats(m.stats),
        CommandView::Flush => reply == ReplyView::Flushed(m.item_count()),
    }
}

/// Carries out a command on the cache. `now` is the monotonic clock in
/// nanoseconds and `wall_ms` the wall clock at the time of the call.
pub fn execute(
    cache: &mut Cache,
    limits: &CacheConfig,
    command: Command,
    now: u128,
    wall_ms: Option<u64>,
) -> (reply: Reply)
    requires
        old(cache).wf(),
    ensures
        final(cache).wf(),
        final(cache).same_routing(old(cache)),
        final(cache)@ == outcome(old(cache)@, *limits, command@, now, wall_ms),
        answers(reply@, old(cache)@, *limits, command@, now),
{
    match command {
        Command::Put { key, ttl_ms, tags, value } => {
            match check_put(limits, key.as_str(), value.as_str(), &tags) {
                Some(refusal) => Reply::Refused(refusal),
                None => {
                    let ttl: Option<u128> = match ttl_ms {
                        Some(ms) => Some((ms as u128) * 1_000_000),
                        None => None,
                    };
                    cache.put(key, value, tags, ttl, now, wall_ms);
                    Reply::Stored
                },
            }
        },
        Command::Get { key } => {
            match cache.get(&key, now) {
                Some(v) => Reply::Value(v),
                None => Reply::NotFound,
            }
        },
        Command::Del { key } => Reply::Deleted(cache.invalidate_key(&key)),
        Command::InvTag { tag } => Reply::Invalidated(cache.invalidate_tag(&tag)),
        Command::KeysByTag { tag } => Reply::Keys(cache.get_keys_by_tag(&tag, now)),
        Command::Stats => Reply::Stats(cache.get_stats()),
        Command::Flush => Reply::Flushed(cache.flush_all()),
    }
}

/// The texts joined, with `sep` between each two.
pub open spec fn joined(items: Seq<Seq<char>>, sep: Seq<char>) -> Seq<char>
    decreases items.len(),
{
    if items.len() == 0 {
        Seq::empty()
    } else if items.len() == 1 {
        items[0]
    } else {
        joined(items.drop_last(), sep) + sep + items.last()
    }
}

/// The reason of an error as the protocol writes it.
pub open spec fn reason(e: ProtocolError) -> Seq<char> {
    match e {
        ProtocolError::MissingKey => "ERR missing_key"@,
        ProtocolError::MissingTag => "ERR missing_tag"@,
        ProtocolError::UnknownCommand => "ERR unknown_command"@,
    }
}

/// The reply line, without its line feed. The line of the counters ends
/// with the count of invalidations: the hit ratio that follows it on the
/// wire is a floating-point figure and is appended by the caller.
pub open spec fn render_spec(reply: ReplyView) -> Seq<char> {
    match reply {
        ReplyView::Stored => "OK"@,
        ReplyView::Value(v) => "VALUE\t"@ + v,
        ReplyView::NotFound => "NF"@,
        ReplyView::Deleted(found) => if found {
            "DEL ok"@
        } else {
            "DEL nf"@
        },
        ReplyView::Invalidated(n) => "INV_TAG\t"@ + decimal(n as nat),
        ReplyView::Keys(keys) => "KEYS\t"@ + joined(keys, ","@),
        ReplyView::Stats(stats) => "STATS\t"@ + decimal(stats.hits as nat) + "\t"@ + decimal(
            stats.misses as nat,
        ) + "\t"@ + decimal(stats.puts as nat) + "\t"@ + decimal(stats.invalidations as nat),
        ReplyView::Flushed(n) => "FLUSH\t"@ + decimal(n as nat),
        ReplyView::Error(e) => reason(e),
        ReplyView::Refused(r) => "ERR "@ + reason_spec(r),
    }
}

/// Writes a reply as a line of the protocol, without its line feed.
pub fn render(reply: &Reply) -> (line: String)
    ensures
        line@ == render_spec(reply@),
{
    match reply {
        Reply::Stored => "OK".to_owned(),
        Reply::Value(v) => {
            let mut line = "VALUE\t".to_owned();
            line.append(v.as_str());
            line
        },
        Reply::NotFound => "NF".to_owned(),
        Reply::Deleted(found) => if *found {
            "DEL ok".to_owned()
        } else {
            "DEL nf".to_owned()
        },
        Reply::Invalidated(n) => {
            let mut line = "INV_TAG\t".to_owned();
            push_decimal(&mut line, *n as u64);
            line
        },
        Reply::Keys(keys) => {
            let mut line = "KEYS\t".to_owned();
            let ghost all = key_views(keys@);
            let ghost head = line@;
            let mut i: usize = 0;
            assert(all.take(0) =~= Seq::<Seq<char>>::empty());
            assert(line@ =~= head + joined(all.take(0), ","@));
            while i < keys.len()
                invariant
                    0 <= i <= keys.len(),
                    all == key_views(keys@),
                    line@ == head + joined(all.take(i as int), ","@),
                decreases keys.len() - i,
            {
                proof {
                    assert(all.take(i + 1).drop_last() =~= all.take(i as int));
                    assert(all.take(i + 1).last() == all[i as int]);
                    assert(all.take(i + 1)[0] == all[0]);
                }
                if i > 0 {
                    line.append(",");
                }
                line.append(keys[i].as_str());
                proof {
                    assert(line@ =~= head + joined(all.take(i + 1), ","@));
                }
                i = i + 1;
            }
            proof {
                assert(all.take(all.len() as int) =~= all);
            }
            line
        },
        Reply::Stats(stats) => {
            let mut line = "STATS\t".to_owned();
            push_decimal(&mut line, stats.hits);
            line.append("\t");
            push_decimal(&mut line, stats.misses);
            line.append("\t");
            push_decimal(&mut line, stats.puts);
            line.append("\t");
            push_decimal(&mut line, stats.invalidations);
            line
        },
        Reply::Flushed(n) => {
            let mut line = "FLUSH\t".to_owned();
            push_decimal(&mut line, *n as u64);
            line
        },
        Reply::Error(e) => match e {
            ProtocolError::MissingKey => "ERR missing_key".to_owned(),
            ProtocolError::MissingTag => "ERR missing_tag".to_owned(),
            ProtocolError::UnknownCommand => "ERR unknown_command".to_owned(),
        },
        Reply::Refused(r) => {
            let mut line = "ERR ".to_owned();
            line.append(r.reason());
            line
        },
    }
}

/// Reads one line and carries out what it says. No reply is due to a line
/// that holds nothing but line ends; a line that is no command gets the
/// reply that says why, and leaves the cache as it is, as does a `PUT`
/// beyond the bounds.
pub fn handle_line(
    cache: &mut Cache,
    limits: &CacheConfig,
    line: &str,
    now: u128,
    wall_ms: Option<u64>,
) -> (reply: Option<Reply>)
    requires
        old(cache).wf(),
    ensures
        final(cache).wf(),
        final(cache).same_routing(old(cache)),
        match parse_spec(line@) {
            ParsedView::Empty => reply is None && final(cache)@ == old(cache)@,
            ParsedView::Error(e) => reply matches Some(r) && r@ == ReplyView::Error(e)
                && final(cache)@ == old(cache)@,
            ParsedView::Command(c) => reply matches Some(r) && answers(
                r@,
                old(cache)@,
                *limits,
                c,
                now,
            ) && final(cache)@ == outcome(old(cache)@, *limits, c, now, wall_ms),
        },
{
    match parse_line(line) {
        Parsed::Empty => None,
        Parsed::Error(e) => Some(Reply::Error(e)),
        Parsed::Command(command) => Some(execute(cache, limits, command, now, wall_ms)),
    }
}

} // verus!
