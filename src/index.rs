//! The full-text index: one Bloom filter per document, and searches that
//! return the documents whose filters hold every token of a query.
use vstd::hash_set::StringHashSet;
use vstd::prelude::*;
use vstd::slice::slice_to_vec;
use vstd::utf8::{encode_utf8, encode_utf8_decode_utf8};

use crate::bloom_filter::{BloomFilter, FilterModel};
use crate::errors::Error;
use crate::rate::{filter_bits, filter_size, ErrorRate};
use crate::tokens::{tokens, Tokens};

verus! {

/// Byte-wise lexicographic order, the order of `String`s in std: `a` comes
/// before `b` when it is a proper prefix of `b`, or has the smaller byte at
/// the first place where they differ.
pub open spec fn lex_lt(a: Seq<u8>, b: Seq<u8>) -> bool
    decreases a.len(),
{
    if b.len() == 0 {
        false
    } else if a.len() == 0 {
        true
    } else if a[0] != b[0] {
        a[0] < b[0]
    } else {
        lex_lt(a.drop_first(), b.drop_first())
    }
}

/// The sort key of a document identifier: its UTF-8 bytes.
pub open spec fn name_key(name: Seq<char>) -> Seq<u8> {
    encode_utf8(name)
}

pub proof fn lemma_lex_irreflexive(a: Seq<u8>)
    ensures
        !lex_lt(a, a),
    decreases a.len(),
{
    if a.len() > 0 {
        lemma_lex_irreflexive(a.drop_first());
    }
}

pub proof fn lemma_lex_transitive(a: Seq<u8>, b: Seq<u8>, c: Seq<u8>)
    requires
        lex_lt(a, b),
        lex_lt(b, c),
    ensures
        lex_lt(a, c),
    decreases a.len(),
{
    if a.len() > 0 && b.len() > 0 && c.len() > 0 && a[0] == b[0] && b[0] == c[0] {
        lemma_lex_transitive(a.drop_first(), b.drop_first(), c.drop_first());
    }
}

pub proof fn lemma_lex_total(a: Seq<u8>, b: Seq<u8>)
    ensures
        a == b || lex_lt(a, b) || lex_lt(b, a),
    decreases a.len(),
{
    if a.len() > 0 && b.len() > 0 && a[0] == b[0] {
        lemma_lex_total(a.drop_first(), b.drop_first());
        if a.drop_first() == b.drop_first() {
            assert(a =~= seq![a[0]] + a.drop_first());
            assert(b =~= seq![b[0]] + b.drop_first());
        }
    } else if a.len() == 0 && b.len() == 0 {
        assert(a =~= b);
    }
}

/// Two identifiers are equal exactly when their bytes are.
proof fn lemma_name_key_injective(a: Seq<char>, b: Seq<char>)
    ensures
        name_key(a) == name_key(b) <==> a == b,
{
    encode_utf8_decode_utf8(a);
    encode_utf8_decode_utf8(b);
}

/// Compares two byte strings: negative, zero or positive as `a` comes
/// before, equals, or comes after `b`.
fn compare_bytes(a: &[u8], b: &[u8]) -> (r: i8)
    ensures
        r < 0 <==> lex_lt(a@, b@),
        r == 0 <==> a@ == b@,
        r > 0 <==> lex_lt(b@, a@),
{
    let mut i: usize = 0;
    assert(a@.skip(0) =~= a@);
    assert(b@.skip(0) =~= b@);
    while i < a.len() && i < b.len() && a[i] == b[i]
        invariant
            i <= a@.len(),
            i <= b@.len(),
            a@.take(i as int) == b@.take(i as int),
            lex_lt(a@, b@) == lex_lt(a@.skip(i as int), b@.skip(i as int)),
            lex_lt(b@, a@) == lex_lt(b@.skip(i as int), a@.skip(i as int)),
        decreases a@.len() - i,
    {
        assert(a@.skip(i as int).drop_first() =~= a@.skip(i + 1));
        assert(b@.skip(i as int).drop_first() =~= b@.skip(i + 1));
        assert(a@.take(i + 1) =~= a@.take(i as int).push(a@[i as int]));
        assert(b@.take(i + 1) =~= b@.take(i as int).push(b@[i as int]));
        i = i + 1;
    }
    proof {
        lemma_lex_irreflexive(a@.skip(i as int));
    }
    if i == a.len() && i == b.len() {
        assert(a@ =~= a@.take(i as int));
        assert(b@ =~= b@.take(i as int));
        0
    } else if i == a.len() {
        assert(a@.skip(i as int).len() == 0);
        proof {
            if a@ == b@ {
                assert(a@.len() == b@.len());
            }
        }
        -1
    } else if i == b.len() {
        assert(b@.skip(i as int).len() == 0);
        proof {
            if a@ == b@ {
                assert(a@.len() == b@.len());
            }
        }
        1
    } else if a[i] < b[i] {
        proof {
            if a@ == b@ {
                assert(a@[i as int] == b@[i as int]);
            }
        }
        -1
    } else {
        proof {
            if a@ == b@ {
                assert(a@[i as int] == b@[i as int]);
            }
        }
        1
    }
}

/// An index as a value: its rate, and its entries in the order of their
/// identifiers' bytes.
pub struct IndexModel {
    pub rate: (nat, nat),
    pub entries: Seq<(Seq<char>, FilterModel)>,
}

/// The entries with `(name, filter)` put in: in place of the entry of the
/// same name if there is one, else where its name falls in the order.
pub open spec fn put_entry(
    entries: Seq<(Seq<char>, FilterModel)>,
    name: Seq<char>,
    filter: FilterModel,
) -> Seq<(Seq<char>, FilterModel)>
    decreases entries.len(),
{
    if entries.len() == 0 {
        seq![(name, filter)]
    } else if entries[0].0 == name {
        seq![(name, filter)] + entries.drop_first()
    } else if lex_lt(name_key(entries[0].0), name_key(name)) {
        seq![entries[0]] + put_entry(entries.drop_first(), name, filter)
    } else {
        seq![(name, filter)] + entries
    }
}

/// Entries strictly ordered by the bytes of their identifiers.
pub open spec fn sorted_entries(entries: Seq<(Seq<char>, FilterModel)>) -> bool {
    forall|i: int, j: int|
        0 <= i < j < entries.len() ==> lex_lt(
            name_key(#[trigger] entries[i].0),
            name_key(#[trigger] entries[j].0),
        )
}

impl IndexModel {
    pub open spec fn well_formed(self) -> bool {
        &&& 0 < self.rate.0 < self.rate.1
        &&& sorted_entries(self.entries)
        &&& forall|i: int| 0 <= i < self.entries.len() ==> (#[trigger] self.entries[i]).1.well_formed()
    }

    /// Whether a filter is stored under `name`.
    pub open spec fn has(self, name: Seq<char>) -> bool {
        exists|i: int| 0 <= i < self.entries.len() && (#[trigger] self.entries[i]).0 == name
    }

    /// The place of the entry of `name`, when there is one.
    pub open spec fn index_of(self, name: Seq<char>) -> int {
        choose|i: int| 0 <= i < self.entries.len() && (#[trigger] self.entries[i]).0 == name
    }

    /// The filter stored under `name`.
    pub open spec fn filter_of(self, name: Seq<char>) -> FilterModel {
        self.entries[self.index_of(name)].1
    }

    /// The identifiers whose filters hold every one of `query`, in order;
    /// none when the query has no token.
    pub open spec fn hits(self, query: Seq<Seq<char>>) -> Seq<Seq<char>> {
        self.entries.filter(
            |e: (Seq<char>, FilterModel)|
                query.len() > 0 && forall|k: int| 0 <= k < query.len() ==> e.1.contains(#[trigger] query[k]),
        ).map_values(|e: (Seq<char>, FilterModel)| e.0)
    }
}

/// Putting an entry into sorted entries keeps them sorted, and every entry
/// of the result is the new one or one that was there.
proof fn lemma_put_entry(
    entries: Seq<(Seq<char>, FilterModel)>,
    name: Seq<char>,
    filter: FilterModel,
)
    requires
        sorted_entries(entries),
    ensures
        sorted_entries(put_entry(entries, name, filter)),
        forall|i: int|
            0 <= i < put_entry(entries, name, filter).len() ==> #[trigger] put_entry(
                entries,
                name,
                filter,
            )[i] == (name, filter) || (put_entry(entries, name, filter)[i].0 != name
                && entries.contains(put_entry(entries, name, filter)[i])),
        exists|i: int|
            0 <= i < put_entry(entries, name, filter).len() && #[trigger] put_entry(
                entries,
                name,
                filter,
            )[i] == (name, filter),
        forall|i: int|
            0 <= i < entries.len() && entries[i].0 != name ==> put_entry(
                entries,
                name,
                filter,
            ).contains(#[trigger] entries[i]),
    decreases entries.len(),
{
    let r = put_entry(entries, name, filter);
    if entries.len() == 0 {
        assert(r[0] == (name, filter));
    } else if entries[0].0 == name {
        assert(r[0] == (name, filter));
        assert forall|i: int, j: int| 0 <= i < j < r.len() implies lex_lt(
            name_key(#[trigger] r[i].0),
            name_key(#[trigger] r[j].0),
        ) by {
            assert(r[j] == entries[j]);
            if i > 0 {
                assert(r[i] == entries[i]);
            }
        }
        assert forall|i: int| 0 <= i < entries.len() && entries[i].0 != name implies r.contains(
            #[trigger] entries[i],
        ) by {
            assert(r[i] == entries[i]);
        }
        assert forall|i: int| 0 <= i < r.len() implies #[trigger] r[i] == (name, filter) || (
        r[i].0 != name && entries.contains(r[i])) by {
            if i > 0 {
                assert(r[i] == entries[i]);
                assert(lex_lt(name_key(entries[0].0), name_key(entries[i].0)));
                lemma_lex_irreflexive(name_key(name));
            }
        }
    } else if lex_lt(name_key(entries[0].0), name_key(name)) {
        let tail = entries.drop_first();
        let rest = put_entry(tail, name, filter);
        lemma_put_entry(tail, name, filter);
        assert(r == seq![entries[0]] + rest);
        assert forall|i: int, j: int| 0 <= i < j < r.len() implies lex_lt(
            name_key(#[trigger] r[i].0),
            name_key(#[trigger] r[j].0),
        ) by {
            assert(r[j] == rest[j - 1]);
            if i == 0 {
                if rest[j - 1] != (name, filter) {
                    let k = choose|k: int| 0 <= k < tail.len() && tail[k] == rest[j - 1];
                    assert(entries[k + 1] == tail[k]);
                }
            } else {
                assert(r[i] == rest[i - 1]);
            }
        }
        assert forall|i: int| 0 <= i < entries.len() && entries[i].0 != name implies r.contains(
            #[trigger] entries[i],
        ) by {
            if i == 0 {
                assert(r[0] == entries[0]);
            } else {
                assert(tail[i - 1] == entries[i]);
                let k = choose|k: int| 0 <= k < rest.len() && rest[k] == entries[i];
                assert(r[k + 1] == entries[i]);
            }
        }
        assert forall|i: int| 0 <= i < r.len() implies #[trigger] r[i] == (name, filter) || (
        r[i].0 != name && entries.contains(r[i])) by {
            if i == 0 {
                assert(entries[0] == r[0]);
            } else {
                assert(r[i] == rest[i - 1]);
                if rest[i - 1] != (name, filter) {
                    let k = choose|k: int| 0 <= k < tail.len() && tail[k] == rest[i - 1];
                    assert(entries[k + 1] == tail[k]);
                }
            }
        }
        let k = choose|k: int| 0 <= k < rest.len() && rest[k] == (name, filter);
        assert(r[k + 1] == (name, filter));
    } else {
        assert(r[0] == (name, filter));
        lemma_name_key_injective(entries[0].0, name);
        lemma_lex_total(name_key(entries[0].0), name_key(name));
        assert forall|i: int, j: int| 0 <= i < j < r.len() implies lex_lt(
            name_key(#[trigger] r[i].0),
            name_key(#[trigger] r[j].0),
        ) by {
            assert(r[j] == entries[j - 1]);
            if i == 0 {
                if j > 1 {
                    assert(lex_lt(name_key(entries[0].0), name_key(entries[j - 1].0)));
                    lemma_lex_transitive(name_key(name), name_key(entries[0].0), name_key(entries[j - 1].0));
                }
            } else {
                assert(r[i] == entries[i - 1]);
            }
        }
        assert forall|i: int| 0 <= i < entries.len() && entries[i].0 != name implies r.contains(
            #[trigger] entries[i],
        ) by {
            assert(r[i + 1] == entries[i]);
        }
        assert forall|i: int| 0 <= i < r.len() implies #[trigger] r[i] == (name, filter) || (
        r[i].0 != name && entries.contains(r[i])) by {
            if i > 0 {
                assert(r[i] == entries[i - 1]);
                if i > 1 {
                    assert(lex_lt(name_key(entries[0].0), name_key(entries[i - 1].0)));
                    lemma_lex_transitive(name_key(name), name_key(entries[0].0), name_key(entries[i - 1].0));
                }
                lemma_lex_irreflexive(name_key(name));
            }
        }
    }
}


/// The sequence without repetitions, each kept where it first occurs.
pub open spec fn distinct(s: Seq<Seq<char>>) -> Seq<Seq<char>>
    decreases s.len(),
{
    if s.len() == 0 {
        s
    } else {
        let d = distinct(s.drop_last());
        if d.contains(s.last()) {
            d
        } else {
            d.push(s.last())
        }
    }
}

/// The filter that ingesting `content` at `rate` builds: sized for the
/// distinct tokens of the content, with each of them inserted.
pub open spec fn document_filter(content: Seq<char>, rate: (nat, nat)) -> FilterModel {
    let keys = distinct(tokens(content));
    FilterModel::fresh(keys.len(), rate.0, rate.1).insert_all(keys)
}

pub open spec fn string_views(v: Seq<String>) -> Seq<Seq<char>> {
    v.map_values(|s: String| s@)
}

/// One stored filter of a persisted index, as plain values.
pub struct FilterRecord {
    pub name: String,
    pub key_size: u32,
    pub bitfield: Vec<u8>,
    pub bitfield_size: usize,
}

/// A persisted index, as plain values: the rate `error_rate_num /
/// error_rate_den` and one record per stored filter.
pub struct IndexRecord {
    pub error_rate_num: u64,
    pub error_rate_den: u64,
    pub filters: Vec<FilterRecord>,
}

/// The entry that a filter record stands for.
pub open spec fn record_entry(r: FilterRecord) -> (Seq<char>, FilterModel) {
    (r.name@, FilterModel { key_size: r.key_size as nat, size: r.bitfield_size as nat, bytes: r.bitfield@ })
}

pub open spec fn record_entries(rs: Seq<FilterRecord>) -> Seq<(Seq<char>, FilterModel)> {
    rs.map_values(|r: FilterRecord| record_entry(r))
}

/// The entries after putting each of `more` in turn, first to last.
pub open spec fn put_all(
    entries: Seq<(Seq<char>, FilterModel)>,
    more: Seq<(Seq<char>, FilterModel)>,
) -> Seq<(Seq<char>, FilterModel)>
    decreases more.len(),
{
    if more.len() == 0 {
        entries
    } else {
        let before = put_all(entries, more.drop_last());
        put_entry(before, more.last().0, more.last().1)
    }
}

/// An entry whose identifier comes after all others goes at the end.
proof fn lemma_put_entry_last(entries: Seq<(Seq<char>, FilterModel)>, name: Seq<char>, filter: FilterModel)
    requires
        forall|i: int| 0 <= i < entries.len() ==> lex_lt(name_key(#[trigger] entries[i].0), name_key(name)),
    ensures
        put_entry(entries, name, filter) == entries.push((name, filter)),
    decreases entries.len(),
{
    if entries.len() > 0 {
        lemma_lex_irreflexive(name_key(name));
        assert(lex_lt(name_key(entries[0].0), name_key(name)));
        let tail = entries.drop_first();
        assert forall|i: int| 0 <= i < tail.len() implies lex_lt(name_key(#[trigger] tail[i].0), name_key(name)) by {
            assert(tail[i] == entries[i + 1]);
        }
        lemma_put_entry_last(tail, name, filter);
        assert(seq![entries[0]] + tail.push((name, filter)) =~= entries.push((name, filter)));
    }
}

/// A dump of a well-formed index is always restorable, and restoring its
/// entries one by one into an empty index gives back exactly those entries:
/// a dump, restored and dumped again, is the same dump.
pub proof fn lemma_restore_of_dump(m: IndexModel)
    requires
        m.well_formed(),
    ensures
        0 < m.rate.0 < m.rate.1,
        put_all(Seq::empty(), m.entries) == m.entries,
        forall|i: int| 0 <= i < m.entries.len() ==> (#[trigger] m.entries[i]).1.well_formed(),
    decreases m.entries.len(),
{
    let es = m.entries;
    if es.len() > 0 {
        let init = IndexModel { rate: m.rate, entries: es.drop_last() };
        assert forall|i: int| 0 <= i < init.entries.len() implies (#[trigger] init.entries[i]).1.well_formed() by {
            assert(init.entries[i] == es[i]);
        }
        assert forall|i: int, j: int| 0 <= i < j < init.entries.len() implies lex_lt(
            name_key(#[trigger] init.entries[i].0),
            name_key(#[trigger] init.entries[j].0),
        ) by {
            assert(init.entries[i] == es[i]);
            assert(init.entries[j] == es[j]);
        }
        lemma_restore_of_dump(init);
        assert forall|i: int| 0 <= i < init.entries.len() implies lex_lt(
            name_key(#[trigger] init.entries[i].0),
            name_key(es.last().0),
        ) by {
            assert(init.entries[i] == es[i]);
        }
        lemma_put_entry_last(init.entries, es.last().0, es.last().1);
        assert(init.entries.push((es.last().0, es.last().1)) =~= es);
    }
}

/// In sorted entries no identifier occurs twice.
proof fn lemma_sorted_distinct(entries: Seq<(Seq<char>, FilterModel)>, i: int, j: int)
    requires
        sorted_entries(entries),
        0 <= i < entries.len(),
        0 <= j < entries.len(),
        entries[i].0 == entries[j].0,
    ensures
        i == j,
{
    lemma_lex_irreflexive(name_key(entries[i].0));
    if i < j {
        assert(lex_lt(name_key(entries[i].0), name_key(entries[j].0)));
    } else if j < i {
        assert(lex_lt(name_key(entries[j].0), name_key(entries[i].0)));
    }
}

impl IndexModel {
    /// In sorted entries, the filter stored under a name is the one of the
    /// entry that has it.
    proof fn lemma_filter_of_at(self, name: Seq<char>, k: int)
        requires
            sorted_entries(self.entries),
            0 <= k < self.entries.len(),
            self.entries[k].0 == name,
        ensures
            self.has(name),
            self.filter_of(name) == self.entries[k].1,
    {
        lemma_sorted_distinct(self.entries, k, self.index_of(name));
    }
}

/// Storing a filter under a name replaces what the name held, and leaves
/// every other name as it was: the old filter of that name is gone.
pub proof fn lemma_put_replaces(m: IndexModel, name: Seq<char>, filter: FilterModel, other: Seq<char>)
    requires
        sorted_entries(m.entries),
    ensures
        ({
            let after = IndexModel { rate: m.rate, entries: put_entry(m.entries, name, filter) };
            &&& after.has(name)
            &&& after.filter_of(name) == filter
            &&& other != name ==> (after.has(other) <==> m.has(other))
            &&& other != name && m.has(other) ==> after.filter_of(other) == m.filter_of(other)
        }),
{
    let es = m.entries;
    let r = put_entry(es, name, filter);
    let after = IndexModel { rate: m.rate, entries: r };
    lemma_put_entry(es, name, filter);
    let i = choose|i: int| 0 <= i < r.len() && r[i] == (name, filter);
    after.lemma_filter_of_at(name, i);
    if other != name {
        if m.has(other) {
            let k = choose|k: int| 0 <= k < es.len() && (#[trigger] es[k]).0 == other;
            assert(r.contains(es[k]));
            let j = choose|j: int| 0 <= j < r.len() && r[j] == es[k];
            after.lemma_filter_of_at(other, j);
            m.lemma_filter_of_at(other, k);
        }
        if after.has(other) {
            let j = choose|j: int| 0 <= j < r.len() && (#[trigger] r[j]).0 == other;
            assert(r[j] != (name, filter));
            let k = choose|k: int| 0 <= k < es.len() && es[k] == r[j];
            assert(es[k].0 == other);
        }
    }
}

/// The entries that a predicate keeps from sorted entries are sorted, and
/// each is one of the entries.
proof fn lemma_filter_sorted(
    entries: Seq<(Seq<char>, FilterModel)>,
    keep: spec_fn((Seq<char>, FilterModel)) -> bool,
)
    requires
        sorted_entries(entries),
    ensures
        sorted_entries(entries.filter(keep)),
        forall|i: int| 0 <= i < entries.filter(keep).len() ==> entries.contains(#[trigger] entries.filter(keep)[i]),
    decreases entries.len(),
{
    reveal(Seq::filter);
    if entries.len() > 0 {
        let init = entries.drop_last();
        assert forall|i: int, j: int| 0 <= i < j < init.len() implies lex_lt(
            name_key(#[trigger] init[i].0),
            name_key(#[trigger] init[j].0),
        ) by {
            assert(init[i] == entries[i]);
            assert(init[j] == entries[j]);
        }
        lemma_filter_sorted(init, keep);
        let sub = init.filter(keep);
        let out = entries.filter(keep);
        assert forall|i: int| 0 <= i < sub.len() implies entries.contains(#[trigger] sub[i]) && lex_lt(
            name_key(sub[i].0),
            name_key(entries.last().0),
        ) by {
            let k = choose|k: int| 0 <= k < init.len() && init[k] == sub[i];
            assert(entries[k] == sub[i]);
            assert(lex_lt(name_key(entries[k].0), name_key(entries[entries.len() - 1].0)));
        }
        if keep(entries.last()) {
            assert(out == sub.push(entries.last()));
            assert forall|i: int, j: int| 0 <= i < j < out.len() implies lex_lt(
                name_key(#[trigger] out[i].0),
                name_key(#[trigger] out[j].0),
            ) by {
                assert(out[i] == sub[i]);
                if j < sub.len() {
                    assert(out[j] == sub[j]);
                }
            }
            assert forall|i: int| 0 <= i < out.len() implies entries.contains(#[trigger] out[i]) by {
                if i < sub.len() {
                    assert(out[i] == sub[i]);
                } else {
                    assert(entries[entries.len() - 1] == out[i]);
                }
            }
        }
    }
}

/// Search results come in strictly increasing byte order of the identifiers.
pub proof fn lemma_hits_sorted(m: IndexModel, query: Seq<Seq<char>>)
    requires
        m.well_formed(),
    ensures
        forall|i: int, j: int|
            0 <= i < j < m.hits(query).len() ==> lex_lt(
                name_key(#[trigger] m.hits(query)[i]),
                name_key(#[trigger] m.hits(query)[j]),
            ),
{
    let keep = |e: (Seq<char>, FilterModel)|
        query.len() > 0 && forall|k: int| 0 <= k < query.len() ==> e.1.contains(#[trigger] query[k]);
    lemma_filter_sorted(m.entries, keep);
    let kept = m.entries.filter(keep);
    assert(m.hits(query) == kept.map_values(|e: (Seq<char>, FilterModel)| e.0));
    assert forall|i: int, j: int| 0 <= i < j < m.hits(query).len() implies lex_lt(
        name_key(#[trigger] m.hits(query)[i]),
        name_key(#[trigger] m.hits(query)[j]),
    ) by {
        assert(m.hits(query)[i] == kept[i].0);
        assert(m.hits(query)[j] == kept[j].0);
    }
}

/// An identifier is among the hits of a query exactly when a filter is
/// stored under it and that filter holds every token of the (non-empty) query.
pub proof fn lemma_hits_members(m: IndexModel, query: Seq<Seq<char>>, name: Seq<char>)
    requires
        m.well_formed(),
    ensures
        m.hits(query).contains(name) <==> (query.len() > 0 && m.has(name) && forall|k: int|
            0 <= k < query.len() ==> m.filter_of(name).contains(#[trigger] query[k])),
{
    let keep = |e: (Seq<char>, FilterModel)|
        query.len() > 0 && forall|k: int| 0 <= k < query.len() ==> e.1.contains(#[trigger] query[k]);
    let kept = m.entries.filter(keep);
    lemma_filter_sorted(m.entries, keep);
    assert(m.hits(query) == kept.map_values(|e: (Seq<char>, FilterModel)| e.0));
    if m.hits(query).contains(name) {
        let j = choose|j: int| 0 <= j < m.hits(query).len() && m.hits(query)[j] == name;
        assert(kept[j].0 == name);
        assert(keep(kept[j]));
        let k = choose|k: int| 0 <= k < m.entries.len() && m.entries[k] == kept[j];
        m.lemma_filter_of_at(name, k);
    }
    if query.len() > 0 && m.has(name) && forall|k: int|
        0 <= k < query.len() ==> m.filter_of(name).contains(#[trigger] query[k]) {
        let i = m.index_of(name);
        m.lemma_filter_of_at(name, i);
        assert(keep(m.entries[i]));
        assert(kept.contains(m.entries[i]));
        let j = choose|j: int| 0 <= j < kept.len() && kept[j] == m.entries[i];
        assert(m.hits(query)[j] == name);
    }
}

/// A collection of documents, each reduced to a Bloom filter of its tokens.
pub struct Index {
    error_rate: ErrorRate,
    bloom_filters: Vec<(String, BloomFilter)>,
}

impl View for Index {
    type V = IndexModel;

    closed spec fn view(&self) -> IndexModel {
        IndexModel {
            rate: self.error_rate@,
            entries: self.bloom_filters@.map_values(|e: (String, BloomFilter)| (e.0@, e.1@)),
        }
    }
}

/// The tokens of `text`, in order.
fn all_tokens(text: &str) -> (r: Vec<String>)
    ensures
        string_views(r@) == tokens(text@),
{
    let mut toks = Tokens::new(text);
    let ghost all = toks@;
    let mut out: Vec<String> = Vec::new();
    loop
        invariant
            all == tokens(text@),
            all == string_views(out@) + toks@,
        decreases toks@.len(),
    {
        let ghost before = toks@;
        match toks.next() {
            Some(t) => {
                assert(string_views(out@.push(t)) =~= string_views(out@).push(t@));
                assert(before =~= seq![t@] + toks@);
                out.push(t);
            },
            None => {
                assert(all =~= string_views(out@));
                return out;
            },
        }
    }
}

impl Index {
    pub open spec fn well_formed(&self) -> bool {
        self@.well_formed()
    }

    /// An empty index whose filters will be sized for `error_rate`.
    pub fn new(error_rate: ErrorRate) -> (r: Index)
        ensures
            r.well_formed(),
            r@.rate == error_rate@,
            r@.entries == Seq::<(Seq<char>, FilterModel)>::empty(),
    {
        // reading the numerator brings the rate's own bounds into the proof
        let _ = error_rate.numerator();
        let r = Index { error_rate, bloom_filters: Vec::new() };
        assert(r@.entries =~= Seq::<(Seq<char>, FilterModel)>::empty());
        r
    }

    /// Stores `filter` under `name`, replacing the filter stored there.
    fn put(&mut self, name: String, filter: BloomFilter)
        requires
            old(self).well_formed(),
            filter.well_formed(),
        ensures
            final(self).well_formed(),
            final(self)@ == (IndexModel {
                rate: old(self)@.rate,
                entries: put_entry(old(self)@.entries, name@, filter@),
            }),
    {
        let ghost es = self@.entries;
        let ghost target = put_entry(es, name@, filter@);
        proof {
            lemma_put_entry(es, name@, filter@);
            assert(es.skip(0) =~= es);
            assert forall|i: int| 0 <= i < target.len() implies (#[trigger] target[i]).1.well_formed() by {
                if target[i] != (name@, filter@) {
                    let k = choose|k: int| 0 <= k < es.len() && es[k] == target[i];
                }
            }
        }
        let mut pos: usize = 0;
        while pos < self.bloom_filters.len()
            invariant
                self@ == old(self)@,
                0 < self@.rate.0 < self@.rate.1,
                es == self@.entries,
                target == put_entry(es, name@, filter@),
                sorted_entries(target),
                forall|i: int| 0 <= i < target.len() ==> (#[trigger] target[i]).1.well_formed(),
                pos <= es.len(),
                target == es.take(pos as int) + put_entry(es.skip(pos as int), name@, filter@),
            decreases es.len() - pos,
        {
            let c = compare_bytes(self.bloom_filters[pos].0.as_str().as_bytes(), name.as_str().as_bytes());
            let ghost here = es.skip(pos as int);
            proof {
                assert(here[0] == es[pos as int]);
                assert(here.drop_first() =~= es.skip(pos + 1));
                lemma_name_key_injective(es[pos as int].0, name@);
            }
            if c == 0 {
                let ghost fv = filter@;
                let ghost nv = name@;
                self.bloom_filters[pos] = (name, filter);
                assert(self@.entries =~= es.take(pos as int) + put_entry(here, nv, fv));
                return ;
            } else if c > 0 {
                let ghost fv = filter@;
                let ghost nv = name@;
                self.bloom_filters.insert(pos, (name, filter));
                assert(self@.entries =~= es.take(pos as int) + put_entry(here, nv, fv));
                return ;
            }
            assert(es.take(pos + 1) =~= es.take(pos as int).push(es[pos as int]));
            pos = pos + 1;
        }
        let ghost fv = filter@;
        let ghost nv = name@;
        assert(es.skip(pos as int) =~= Seq::<(Seq<char>, FilterModel)>::empty());
        assert(es.take(pos as int) =~= es);
        self.bloom_filters.push((name, filter));
        assert(self@.entries =~= target);
    }

    /// The distinct tokens of `content`, each where it first occurs.
    fn aggregate_tokens(&self, content: &str) -> (r: Vec<String>)
        ensures
            string_views(r@) == distinct(tokens(content@)),
    {
        let mut toks = Tokens::new(content);
        let ghost all = toks@;
        let ghost mut consumed: Seq<Seq<char>> = Seq::empty();
        let mut seen = StringHashSet::new();
        let mut unique_tokens: Vec<String> = Vec::new();
        loop
            invariant
                all == tokens(content@),
                all == consumed + toks@,
                string_views(unique_tokens@) == distinct(consumed),
                forall|t: Seq<char>| seen@.contains(t) <==> distinct(consumed).contains(t),
            decreases toks@.len(),
        {
            let ghost before = toks@;
            match toks.next() {
                Some(token) => {
                    proof {
                        assert(before =~= seq![token@] + toks@);
                        assert(consumed.push(token@).drop_last() =~= consumed);
                        assert(consumed.push(token@).last() == token@);
                        consumed = consumed.push(token@);
                    }
                    if !seen.contains(token.as_str()) {
                        let ghost d = distinct(consumed.drop_last());
                        seen.insert(token.clone());
                        assert forall|t: Seq<char>| seen@.contains(t) <==> distinct(consumed).contains(t) by {
                            if t == token@ {
                                assert(d.push(token@)[d.len() as int] == t);
                            } else if d.contains(t) {
                                let k = choose|k: int| 0 <= k < d.len() && d[k] == t;
                                assert(d.push(token@)[k] == t);
                            } else if d.push(token@).contains(t) {
                                let k = choose|k: int| 0 <= k < d.len() + 1 && d.push(token@)[k] == t;
                                assert(k < d.len());
                                assert(d[k] == t);
                            }
                        }
                        assert(string_views(unique_tokens@.push(token)) =~= string_views(
                            unique_tokens@,
                        ).push(token@));
                        unique_tokens.push(token);
                    }
                },
                None => {
                    assert(all =~= consumed);
                    return unique_tokens;
                },
            }
        }
    }

    /// Indexes `content` under `name`: builds a filter sized for its distinct
    /// tokens and the index's rate, inserts every token, and stores it in
    /// place of any filter that `name` had. Content with no token, or whose
    /// filter would have more bits than a `usize` counts, is refused with
    /// `InvalidCapacity` and leaves the index as it was.
    pub fn ingest(&mut self, name: String, content: &str) -> (r: Result<(), Error>)
        requires
            old(self).well_formed(),
        ensures
            final(self).well_formed(),
            r is Ok <==> 0 < distinct(tokens(content@)).len() && filter_bits(
                distinct(tokens(content@)).len(),
                old(self)@.rate.0,
                old(self)@.rate.1,
            ) <= usize::MAX,
            r is Ok ==> final(self)@ == (IndexModel {
                rate: old(self)@.rate,
                entries: put_entry(
                    old(self)@.entries,
                    name@,
                    document_filter(content@, old(self)@.rate),
                ),
            }),
            r matches Err(e) ==> e == Error::InvalidCapacity && final(self)@ == old(self)@,
    {
        let tokens_agg = self.aggregate_tokens(content);
        let capacity = tokens_agg.len();
        if capacity == 0 {
            return Err(Error::InvalidCapacity);
        }
        let (bits, probes) = match filter_size(capacity, &self.error_rate) {
            Some(size) => size,
            None => {
                return Err(Error::InvalidCapacity);
            },
        };
        let ghost keys = distinct(tokens(content@));
        let ghost fresh = FilterModel::fresh(capacity as nat, self@.rate.0, self@.rate.1);
        let mut filter = BloomFilter::with_size(bits, probes);
        let mut i: usize = 0;
        assert(keys.take(0) =~= Seq::<Seq<char>>::empty());
        while i < tokens_agg.len()
            invariant
                string_views(tokens_agg@) == keys,
                i <= tokens_agg@.len(),
                filter.well_formed(),
                filter@ == fresh.insert_all(keys.take(i as int)),
            decreases tokens_agg@.len() - i,
        {
            match filter.insert(tokens_agg[i].as_str()) {
                Ok(()) => {},
                Err(e) => {
                    return Err(e);
                },
            }
            assert(keys.take(i + 1).drop_last() =~= keys.take(i as int));
            assert(keys[i as int] == tokens_agg@[i as int]@);
            i = i + 1;
        }
        assert(keys.take(i as int) =~= keys);
        self.put(name, filter);
        Ok(())
    }

    /// Whether the filter of entry `i` holds every token of `query`.
    fn matches_all(&self, i: usize, query: &Vec<String>) -> (r: bool)
        requires
            self.well_formed(),
            i < self@.entries.len(),
        ensures
            r == (forall|k: int|
                0 <= k < query@.len() ==> self@.entries[i as int].1.contains(#[trigger] string_views(query@)[k])),
    {
        let filter = &self.bloom_filters[i].1;
        assert(filter@ == self@.entries[i as int].1);
        let mut k: usize = 0;
        while k < query.len()
            invariant
                filter.well_formed(),
                filter@ == self@.entries[i as int].1,
                k <= query@.len(),
                forall|j: int| 0 <= j < k ==> filter@.contains(#[trigger] string_views(query@)[j]),
            decreases query@.len() - k,
        {
            assert(string_views(query@)[k as int] == query@[k as int]@);
            match filter.contains(query[k].as_str()) {
                Ok(true) => {},
                _ => {
                    return false;
                },
            }
            k = k + 1;
        }
        true
    }

    /// The identifiers of the documents whose filters hold every token of
    /// `keywords`, in byte order; `None` when there is none, which is always
    /// so for keywords with no token.
    pub fn search(&self, keywords: &str) -> (r: Result<Option<Vec<String>>, Error>)
        requires
            self.well_formed(),
        ensures
            r matches Ok(found) && ({
                let hits = self@.hits(tokens(keywords@));
                if hits.len() == 0 {
                    found is None
                } else {
                    found matches Some(names) && string_views(names@) == hits
                }
            }),
    {
        let query = all_tokens(keywords);
        let ghost q = tokens(keywords@);
        let ghost es = self@.entries;
        let ghost pred = |e: (Seq<char>, FilterModel)|
            q.len() > 0 && forall|k: int| 0 <= k < q.len() ==> e.1.contains(#[trigger] q[k]);
        let mut result: Vec<String> = Vec::new();
        let mut i: usize = 0;
        assert(es.take(0) =~= Seq::<(Seq<char>, FilterModel)>::empty());
        proof {
            reveal(Seq::filter);
        }
        while i < self.bloom_filters.len()
            invariant
                self.well_formed(),
                es == self@.entries,
                string_views(query@) == q,
                pred == (|e: (Seq<char>, FilterModel)|
                    q.len() > 0 && forall|k: int| 0 <= k < q.len() ==> e.1.contains(#[trigger] q[k])),
                i <= es.len(),
                string_views(result@) == es.take(i as int).filter(pred).map_values(
                    |e: (Seq<char>, FilterModel)| e.0,
                ),
            decreases es.len() - i,
        {
            let hit = query.len() > 0 && self.matches_all(i, &query);
            proof {
                reveal(Seq::filter);
                assert(es.take(i + 1).drop_last() =~= es.take(i as int));
                assert(es.take(i + 1).last() == es[i as int]);
                assert(hit == pred(es[i as int]));
            }
            if hit {
                let name = self.bloom_filters[i].0.clone();
                assert(name@ == es[i as int].0);
                assert(string_views(result@.push(name)) =~= string_views(result@).push(name@));
                result.push(name);
                assert(string_views(result@) =~= es.take(i + 1).filter(pred).map_values(
                    |e: (Seq<char>, FilterModel)| e.0,
                ));
            } else {
                assert(string_views(result@) =~= es.take(i + 1).filter(pred).map_values(
                    |e: (Seq<char>, FilterModel)| e.0,
                ));
            }
            i = i + 1;
        }
        assert(es.take(i as int) =~= es);
        assert(self@.hits(q) == es.filter(pred).map_values(|e: (Seq<char>, FilterModel)| e.0));
        if result.len() > 0 {
            Ok(Some(result))
        } else {
            Ok(None)
        }
    }

    /// The index as plain values: its rate, and a record per filter in the
    /// order of the identifiers' bytes.
    pub fn dump(&self) -> (r: IndexRecord)
        requires
            self.well_formed(),
        ensures
            r.error_rate_num == self@.rate.0,
            r.error_rate_den == self@.rate.1,
            record_entries(r.filters@) == self@.entries,
    {
        let ghost es = self@.entries;
        let mut filters: Vec<FilterRecord> = Vec::new();
        let mut i: usize = 0;
        while i < self.bloom_filters.len()
            invariant
                es == self@.entries,
                i <= es.len(),
                record_entries(filters@) == es.take(i as int),
            decreases es.len() - i,
        {
            let entry = &self.bloom_filters[i];
            let record = FilterRecord {
                name: entry.0.clone(),
                key_size: entry.1.key_size(),
                bitfield: slice_to_vec(entry.1.bitfield()),
                bitfield_size: entry.1.bitfield_size(),
            };
            assert(record_entry(record) == es[i as int]);
            assert(record_entries(filters@.push(record)) =~= record_entries(filters@).push(record_entry(record)));
            filters.push(record);
            assert(es.take(i + 1) =~= es.take(i as int).push(es[i as int]));
            i = i + 1;
        }
        assert(es.take(i as int) =~= es);
        IndexRecord {
            error_rate_num: self.error_rate.numerator(),
            error_rate_den: self.error_rate.denominator(),
            filters,
        }
    }

    /// The index that a record describes: each filter put in turn, so a
    /// later record of the same identifier wins. `MalformedState` unless the
    /// rate lies in (0, 1) and every record has a probe, a bit, and exactly
    /// the bytes that hold its bits.
    pub fn restore(record: IndexRecord) -> (r: Result<Index, Error>)
        ensures
            r is Ok <==> (0 < record.error_rate_num < record.error_rate_den && forall|i: int|
                0 <= i < record.filters@.len() ==> (#[trigger] record_entry(record.filters@[i])).1.well_formed()),
            r matches Ok(index) ==> index.well_formed() && index@.rate == (
                record.error_rate_num as nat,
                record.error_rate_den as nat,
            ) && index@.entries == put_all(Seq::empty(), record_entries(record.filters@)),
            r matches Err(e) ==> e == Error::MalformedState,
    {
        let rate = match ErrorRate::new(record.error_rate_num, record.error_rate_den) {
            Some(rate) => rate,
            None => {
                return Err(Error::MalformedState);
            },
        };
        let ghost rs = record.filters@;
        let mut index = Index::new(rate);
        assert(record_entries(rs).take(0) =~= Seq::<(Seq<char>, FilterModel)>::empty());
        for rec in it: record.filters.into_iter()
            invariant
                it.seq() == rs,
                index.well_formed(),
                index@.rate == rate@,
                forall|i: int| 0 <= i < it.index() ==> (#[trigger] record_entry(rs[i])).1.well_formed(),
                index@.entries == put_all(Seq::empty(), record_entries(rs).take(it.index() as int)),
        {
            let ghost entry = record_entry(rec);
            let ghost k = it.index();
            assert(rec == rs[k as int]);
            match BloomFilter::from_parts(rec.key_size, rec.bitfield, rec.bitfield_size) {
                Ok(filter) => {
                    index.put(rec.name, filter);
                    assert(record_entries(rs).take(k + 1).drop_last() =~= record_entries(rs).take(k as int));
                    assert(record_entries(rs).take(k + 1).last() == entry);
                },
                Err(e) => {
                    return Err(e);
                },
            }
        }
        assert(record_entries(rs).take(rs.len() as int) =~= record_entries(rs));
        Ok(index)
    }
}

} // verus!
