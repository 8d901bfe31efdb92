use vstd::prelude::*;

verus! {

/// `;`, which ends an entry.
pub const SEPARATOR: u8 = 59;

/// `=`, which splits an entry into key and value.
pub const EQUALS: u8 = 61;

/// The most bytes a record may hold.
pub const RECORD_CAPACITY: usize = 4096;

/// How many bytes from `pos` on come before the next `stop` byte (or the end).
pub open spec fn run_len(d: Seq<u8>, pos: int, stop: u8) -> nat
    decreases d.len() - pos,
{
    if pos < 0 || pos >= d.len() || d[pos] == stop {
        0
    } else {
        1 + run_len(d, pos + 1, stop)
    }
}

/// The entries of `d` that start at or after `pos`, each without its `;`.
pub open spec fn entries_from(d: Seq<u8>, pos: int) -> Seq<Seq<u8>>
    decreases d.len() - pos,
{
    if pos < 0 || pos >= d.len() {
        Seq::empty()
    } else {
        let end = pos + run_len(d, pos, SEPARATOR);
        if end >= d.len() {
            seq![d.subrange(pos, d.len() as int)]
        } else {
            seq![d.subrange(pos, end)] + entries_from(d, end + 1)
        }
    }
}

/// The entries of a record, left to right. A `;` at the very end opens no
/// further entry.
pub open spec fn entries(d: Seq<u8>) -> Seq<Seq<u8>> {
    entries_from(d, 0)
}

/// Key and value of an entry, split at its first `=`; an entry without `=`
/// has neither.
pub open spec fn field_of(e: Seq<u8>) -> Option<(Seq<u8>, Seq<u8>)> {
    let k = run_len(e, 0, EQUALS);
    if k < e.len() {
        Some((e.take(k as int), e.skip(k as int + 1)))
    } else {
        None
    }
}

pub open spec fn has_key(e: Seq<u8>, key: Seq<u8>) -> bool {
    field_of(e) is Some && field_of(e).unwrap().0 == key
}

/// The value of the first entry in `es` whose key is `key`.
pub open spec fn lookup_in(es: Seq<Seq<u8>>, key: Seq<u8>) -> Option<Seq<u8>>
    decreases es.len(),
{
    if es.len() == 0 {
        None
    } else {
        match lookup_in(es.drop_last(), key) {
            Some(v) => Some(v),
            None => if has_key(es.last(), key) {
                Some(field_of(es.last()).unwrap().1)
            } else {
                None
            },
        }
    }
}

/// The value that a record holds for `key`: the first occurrence wins.
pub open spec fn lookup(d: Seq<u8>, key: Seq<u8>) -> Option<Seq<u8>> {
    lookup_in(entries(d), key)
}

/// Whether a rebuild keeps the entry `e`: it is not empty and its key is
/// not among `excluded`.
pub open spec fn kept(e: Seq<u8>, excluded: Seq<Seq<u8>>) -> bool {
    e.len() > 0 && !(field_of(e) is Some && excluded.contains(field_of(e).unwrap().0))
}

/// The entries of `es` that a rebuild keeps, in their order.
pub open spec fn retained(es: Seq<Seq<u8>>, excluded: Seq<Seq<u8>>) -> Seq<Seq<u8>>
    decreases es.len(),
{
    if es.len() == 0 {
        Seq::empty()
    } else {
        let r = retained(es.drop_last(), excluded);
        if kept(es.last(), excluded) {
            r.push(es.last())
        } else {
            r
        }
    }
}

/// Entries written out with one `;` between neighbours and none around them.
pub open spec fn join(es: Seq<Seq<u8>>) -> Seq<u8>
    decreases es.len(),
{
    if es.len() == 0 {
        Seq::empty()
    } else if es.len() == 1 {
        es[0]
    } else {
        join(es.drop_last()) + seq![SEPARATOR] + es.last()
    }
}

/// The bytes of one entry.
pub open spec fn entry_bytes(key: Seq<u8>, value: Seq<u8>) -> Seq<u8> {
    key + seq![EQUALS] + value
}

/// What `rebuild_excluding` returns.
pub open spec fn rebuilt(d: Seq<u8>, excluded: Seq<Seq<u8>>) -> Seq<u8> {
    join(retained(entries(d), excluded))
}

/// A record after `write_separator` in a buffer of `RECORD_CAPACITY` bytes.
pub open spec fn append_separator(r: Seq<u8>) -> Seq<u8> {
    if r.len() < RECORD_CAPACITY {
        r.push(SEPARATOR)
    } else {
        r
    }
}

/// A record after `write_entry` in a buffer of `RECORD_CAPACITY` bytes.
pub open spec fn append_entry(r: Seq<u8>, key: Seq<u8>, value: Seq<u8>) -> Seq<u8> {
    if r.len() + entry_bytes(key, value).len() <= RECORD_CAPACITY {
        r + entry_bytes(key, value)
    } else {
        r
    }
}

/// A record with the field `key=value` added at its end, after a `;` unless
/// the record is empty.
pub open spec fn append_field(r: Seq<u8>, key: Seq<u8>, value: Seq<u8>) -> Seq<u8> {
    append_entry(
        if r.len() > 0 {
            append_separator(r)
        } else {
            r
        },
        key,
        value,
    )
}

pub open spec fn free_of(s: Seq<u8>, b: u8) -> bool {
    forall|i: int| 0 <= i < s.len() ==> s[i] != b
}

proof fn lemma_run_len(d: Seq<u8>, pos: int, stop: u8)
    requires
        0 <= pos <= d.len(),
    ensures
        pos + run_len(d, pos, stop) <= d.len(),
        pos + run_len(d, pos, stop) < d.len() ==> d[pos + run_len(d, pos, stop)] == stop,
        forall|i: int| pos <= i < pos + run_len(d, pos, stop) ==> d[i] != stop,
    decreases d.len() - pos,
{
    if pos < d.len() && d[pos] != stop {
        lemma_run_len(d, pos + 1, stop);
    }
}

proof fn lemma_run_len_prefix(a: Seq<u8>, b: Seq<u8>, pos: int, stop: u8)
    requires
        0 <= pos <= a.len(),
        b.len() > 0,
        b[0] == stop,
    ensures
        run_len(a + b, pos, stop) == run_len(a, pos, stop),
    decreases a.len() - pos,
{
    if pos < a.len() {
        lemma_run_len_prefix(a, b, pos + 1, stop);
    }
}

proof fn lemma_run_len_shift(p: Seq<u8>, b: Seq<u8>, q: int, stop: u8)
    requires
        0 <= q,
    ensures
        run_len(p + b, p.len() + q, stop) == run_len(b, q, stop),
    decreases b.len() - q,
{
    if q < b.len() {
        lemma_run_len_shift(p, b, q + 1, stop);
    }
}

proof fn lemma_entries_shift(p: Seq<u8>, b: Seq<u8>, q: int)
    requires
        0 <= q,
    ensures
        entries_from(p + b, p.len() + q) == entries_from(b, q),
    decreases b.len() - q,
{
    if q < b.len() {
        let d = p + b;
        lemma_run_len_shift(p, b, q, SEPARATOR);
        lemma_run_len(b, q, SEPARATOR);
        let end = q + run_len(b, q, SEPARATOR);
        if end < b.len() {
            lemma_entries_shift(p, b, end + 1);
        }
        assert(d.subrange(p.len() + q, p.len() + end) =~= b.subrange(q, end));
    }
}

proof fn lemma_entries_split(a: Seq<u8>, b: Seq<u8>, pos: int)
    requires
        0 <= pos < a.len(),
        a.last() != SEPARATOR,
    ensures
        entries_from(a + seq![SEPARATOR] + b, pos) == entries_from(a, pos) + entries(b),
    decreases a.len() - pos,
{
    let s = seq![SEPARATOR] + b;
    let d = a + s;
    assert(a + seq![SEPARATOR] + b =~= d);
    lemma_run_len_prefix(a, s, pos, SEPARATOR);
    lemma_run_len(a, pos, SEPARATOR);
    let end = pos + run_len(a, pos, SEPARATOR);
    assert(d.subrange(pos, end) =~= a.subrange(pos, end));
    if end < a.len() {
        lemma_entries_split(a, b, end + 1);
        assert(entries_from(a, pos) == seq![a.subrange(pos, end)] + entries_from(a, end + 1));
        assert(entries_from(d, pos) =~= entries_from(a, pos) + entries(b));
    } else {
        let p = a + seq![SEPARATOR];
        assert(d =~= p + b);
        lemma_entries_shift(p, b, 0);
        assert(entries_from(a, end + 1) =~= Seq::<Seq<u8>>::empty());
        assert(entries_from(d, pos) =~= entries_from(a, pos) + entries(b));
    }
}

/// Splitting `a;b` gives the entries of `a` and then those of `b`, when `a`
/// is not empty and does not itself end in `;`.
pub proof fn lemma_entries_append(a: Seq<u8>, b: Seq<u8>)
    requires
        a.len() > 0,
        a.last() != SEPARATOR,
    ensures
        entries(a + seq![SEPARATOR] + b) == entries(a) + entries(b),
{
    lemma_entries_split(a, b, 0);
}

/// A non-empty run of bytes without `;` is a single entry.
pub proof fn lemma_entries_single(e: Seq<u8>)
    requires
        e.len() > 0,
        free_of(e, SEPARATOR),
    ensures
        entries(e) == seq![e],
{
    lemma_run_len_free(e, 0, SEPARATOR);
    assert(e.subrange(0, e.len() as int) =~= e);
    assert(entries_from(e, e.len() as int + 1) =~= Seq::<Seq<u8>>::empty());
    assert(entries(e) =~= seq![e]);
}

proof fn lemma_run_len_free(d: Seq<u8>, pos: int, stop: u8)
    requires
        0 <= pos <= d.len(),
        free_of(d, stop),
    ensures
        pos + run_len(d, pos, stop) == d.len(),
    decreases d.len() - pos,
{
    if pos < d.len() {
        lemma_run_len_free(d, pos + 1, stop);
    }
}

proof fn lemma_entries_from_shape(d: Seq<u8>, pos: int)
    requires
        0 <= pos,
    ensures
        forall|i: int|
            0 <= i < entries_from(d, pos).len() ==> free_of(
                #[trigger] entries_from(d, pos)[i],
                SEPARATOR,
            ),
    decreases d.len() - pos,
{
    if pos < d.len() {
        lemma_run_len(d, pos, SEPARATOR);
        let end = pos + run_len(d, pos, SEPARATOR);
        if end < d.len() {
            lemma_entries_from_shape(d, end + 1);
        }
        let es = entries_from(d, pos);
        assert forall|i: int| 0 <= i < es.len() implies free_of(#[trigger] es[i], SEPARATOR) by {
            if i > 0 {
                assert(es[i] == entries_from(d, end + 1)[i - 1]);
            }
        }
    }
}

/// No entry of a record holds a `;`.
pub proof fn lemma_entries_shape(d: Seq<u8>)
    ensures
        forall|i: int| 0 <= i < entries(d).len() ==> free_of(#[trigger] entries(d)[i], SEPARATOR),
{
    lemma_entries_from_shape(d, 0);
}

/// Non-empty entries without `;` come back out of their join unchanged.
pub proof fn lemma_entries_of_join(es: Seq<Seq<u8>>)
    requires
        forall|i: int| 0 <= i < es.len() ==> (#[trigger] es[i]).len() > 0,
        forall|i: int| 0 <= i < es.len() ==> free_of(#[trigger] es[i], SEPARATOR),
    ensures
        entries(join(es)) == es,
        es.len() > 0 ==> join(es).len() > 0 && join(es).last() != SEPARATOR,
    decreases es.len(),
{
    if es.len() == 0 {
        assert(entries(join(es)) =~= es);
    } else if es.len() == 1 {
        lemma_entries_single(es[0]);
        assert(seq![es[0]] =~= es);
    } else {
        let init = es.drop_last();
        assert forall|i: int| 0 <= i < init.len() implies (#[trigger] init[i]).len() > 0 by {
            assert(init[i] == es[i]);
        }
        assert forall|i: int| 0 <= i < init.len() implies free_of(#[trigger] init[i], SEPARATOR) by {
            assert(init[i] == es[i]);
        }
        lemma_entries_of_join(init);
        let x = es.last();
        assert(es[es.len() - 1] == x);
        lemma_entries_single(x);
        lemma_entries_append(join(init), x);
        assert(es =~= init + seq![x]);
    }
}

/// Looking up in a concatenation: the first part wins.
pub proof fn lemma_lookup_in_concat(a: Seq<Seq<u8>>, b: Seq<Seq<u8>>, key: Seq<u8>)
    ensures
        lookup_in(a + b, key) == (match lookup_in(a, key) {
            Some(v) => Some(v),
            None => lookup_in(b, key),
        }),
    decreases b.len(),
{
    if b.len() == 0 {
        assert(a + b =~= a);
    } else {
        lemma_lookup_in_concat(a, b.drop_last(), key);
        assert((a + b).drop_last() =~= a + b.drop_last());
        assert((a + b).last() == b.last());
    }
}

pub proof fn lemma_retained_shape(es: Seq<Seq<u8>>, excluded: Seq<Seq<u8>>)
    ensures
        forall|i: int|
            0 <= i < retained(es, excluded).len() ==> kept(
                #[trigger] retained(es, excluded)[i],
                excluded,
            ) && es.contains(retained(es, excluded)[i]),
    decreases es.len(),
{
    if es.len() > 0 {
        let init = es.drop_last();
        lemma_retained_shape(init, excluded);
        let r = retained(es, excluded);
        assert forall|i: int| 0 <= i < r.len() implies kept(#[trigger] r[i], excluded)
            && es.contains(r[i]) by {
            let ri = retained(init, excluded);
            if i < ri.len() {
                assert(r[i] == ri[i]);
                let j = choose|j: int| 0 <= j < init.len() && init[j] == ri[i];
                assert(es[j] == init[j]);
            } else {
                assert(es[es.len() - 1] == es.last());
            }
        }
    }
}

pub proof fn lemma_lookup_in_retained(es: Seq<Seq<u8>>, excluded: Seq<Seq<u8>>, key: Seq<u8>)
    ensures
        lookup_in(retained(es, excluded), key) == (if excluded.contains(key) {
            None
        } else {
            lookup_in(es, key)
        }),
    decreases es.len(),
{
    if es.len() > 0 {
        let init = es.drop_last();
        lemma_retained_shape(es, excluded);
        lemma_lookup_in_retained(init, excluded, key);
        let x = es.last();
        let ri = retained(init, excluded);
        if kept(x, excluded) {
            let r = ri.push(x);
            assert(r.drop_last() =~= ri);
        }
    }
}

/// Looking a key up after a rebuild finds nothing for an excluded key and
/// the value it had before for every other key; the rebuilt record holds
/// exactly the kept entries, in the order they had.
pub proof fn lemma_lookup_after_rebuild(d: Seq<u8>, excluded: Seq<Seq<u8>>, key: Seq<u8>)
    ensures
        entries(rebuilt(d, excluded)) == retained(entries(d), excluded),
        lookup(rebuilt(d, excluded), key) == (if excluded.contains(key) {
            None
        } else {
            lookup(d, key)
        }),
{
    let es = entries(d);
    let r = retained(es, excluded);
    lemma_entries_shape(d);
    lemma_retained_shape(es, excluded);
    assert forall|i: int| 0 <= i < r.len() implies free_of(#[trigger] r[i], SEPARATOR) by {
        let j = choose|j: int| 0 <= j < es.len() && es[j] == r[i];
    }
    lemma_entries_of_join(r);
    lemma_lookup_in_retained(es, excluded, key);
}

/// An entry written by `write_entry` splits back into its key and value
/// when the key holds no `=`.
pub proof fn lemma_field_of_entry(key: Seq<u8>, value: Seq<u8>)
    requires
        free_of(key, EQUALS),
    ensures
        field_of(entry_bytes(key, value)) == Some((key, value)),
{
    let e = entry_bytes(key, value);
    lemma_run_len_prefix(key, seq![EQUALS] + value, 0, EQUALS);
    assert(e =~= key + (seq![EQUALS] + value));
    lemma_run_len_free(key, 0, EQUALS);
    assert(e.take(key.len() as int) =~= key);
    assert(e.skip(key.len() as int + 1) =~= value);
}

/// Keeping entries commutes with concatenation.
pub proof fn lemma_retained_concat(a: Seq<Seq<u8>>, b: Seq<Seq<u8>>, excluded: Seq<Seq<u8>>)
    ensures
        retained(a + b, excluded) == retained(a, excluded) + retained(b, excluded),
    decreases b.len(),
{
    if b.len() == 0 {
        assert(a + b =~= a);
        assert(retained(a, excluded) + retained(b, excluded) =~= retained(a, excluded));
    } else {
        lemma_retained_concat(a, b.drop_last(), excluded);
        assert((a + b).drop_last() =~= a + b.drop_last());
        assert((a + b).last() == b.last());
        let ra = retained(a, excluded);
        let rb = retained(b.drop_last(), excluded);
        if kept(b.last(), excluded) {
            assert((ra + rb).push(b.last()) =~= ra + rb.push(b.last()));
        }
    }
}

/// Keeping entries a second time keeps them all.
pub proof fn lemma_retained_twice(es: Seq<Seq<u8>>, excluded: Seq<Seq<u8>>)
    ensures
        retained(retained(es, excluded), excluded) == retained(es, excluded),
    decreases es.len(),
{
    if es.len() > 0 {
        lemma_retained_twice(es.drop_last(), excluded);
        let r = retained(es.drop_last(), excluded);
        if kept(es.last(), excluded) {
            assert(r.push(es.last()).drop_last() =~= r);
        }
    }
}

proof fn lemma_join_concat_len(a: Seq<Seq<u8>>, b: Seq<Seq<u8>>)
    ensures
        join(a + b).len() <= join(a).len() + 1 + join(b).len(),
        a.len() == 0 ==> join(a + b) == join(b),
        b.len() == 0 ==> join(a + b) == join(a),
    decreases b.len(),
{
    if b.len() == 0 {
        assert(a + b =~= a);
    } else if a.len() == 0 {
        assert(a + b =~= b);
    } else if b.len() == 1 {
        assert((a + b).drop_last() =~= a);
        assert(join(b) == b[0]);
    } else {
        lemma_join_concat_len(a, b.drop_last());
        assert((a + b).drop_last() =~= a + b.drop_last());
        assert((a + b).last() == b.last());
    }
}

proof fn lemma_rebuilt_from_len(d: Seq<u8>, pos: int, excluded: Seq<Seq<u8>>)
    requires
        0 <= pos <= d.len(),
    ensures
        join(retained(entries_from(d, pos), excluded)).len() <= d.len() - pos,
    decreases d.len() - pos,
{
    if pos < d.len() {
        lemma_run_len(d, pos, SEPARATOR);
        let end = pos + run_len(d, pos, SEPARATOR);
        let x = if end >= d.len() {
            d.subrange(pos, d.len() as int)
        } else {
            d.subrange(pos, end)
        };
        let rest = if end >= d.len() {
            Seq::<Seq<u8>>::empty()
        } else {
            entries_from(d, end + 1)
        };
        assert(entries_from(d, pos) =~= seq![x] + rest);
        lemma_retained_concat(seq![x], rest, excluded);
        let rx = retained(seq![x], excluded);
        let rr = retained(rest, excluded);
        assert(seq![x].drop_last() =~= Seq::<Seq<u8>>::empty());
        lemma_join_concat_len(rx, rr);
        if end < d.len() {
            lemma_rebuilt_from_len(d, end + 1, excluded);
        } else {
            assert(rr =~= Seq::<Seq<u8>>::empty());
        }
        assert(seq![x].last() == x);
        assert(retained(seq![x].drop_last(), excluded) =~= Seq::<Seq<u8>>::empty());
        if rx.len() > 0 {
            assert(rx =~= seq![x]);
            assert(join(rx) == x);
        } else {
            assert(join(rx) =~= Seq::<u8>::empty());
        }
    }
}

/// A rebuild never makes a record longer.
pub proof fn lemma_rebuilt_len(d: Seq<u8>, excluded: Seq<Seq<u8>>)
    ensures
        rebuilt(d, excluded).len() <= d.len(),
{
    lemma_rebuilt_from_len(d, 0, excluded);
}

/// No entry with another key can answer a lookup.
pub proof fn lemma_lookup_in_absent(es: Seq<Seq<u8>>, key: Seq<u8>)
    requires
        forall|j: int| 0 <= j < es.len() ==> !has_key(#[trigger] es[j], key),
    ensures
        lookup_in(es, key) is None,
    decreases es.len(),
{
    if es.len() > 0 {
        let init = es.drop_last();
        assert forall|j: int| 0 <= j < init.len() implies !has_key(#[trigger] init[j], key) by {
            assert(init[j] == es[j]);
        }
        lemma_lookup_in_absent(init, key);
        assert(es[es.len() - 1] == es.last());
    }
}

/// A lookup is answered by the first entry that has the key.
pub proof fn lemma_lookup_in_at(es: Seq<Seq<u8>>, m: int, key: Seq<u8>)
    requires
        0 <= m < es.len(),
        has_key(es[m], key),
        forall|j: int| 0 <= j < m ==> !has_key(#[trigger] es[j], key),
    ensures
        lookup_in(es, key) == Some(field_of(es[m]).unwrap().1),
{
    let head = es.take(m + 1);
    let init = es.take(m);
    assert(head.drop_last() =~= init);
    assert forall|j: int| 0 <= j < init.len() implies !has_key(#[trigger] init[j], key) by {
        assert(init[j] == es[j]);
    }
    lemma_lookup_in_absent(init, key);
    assert(head.last() == es[m]);
    assert(es =~= head + es.skip(m + 1));
    lemma_lookup_in_concat(head, es.skip(m + 1), key);
}

/// Rebuilding a record made of kept entries and entries that are all
/// excluded gives the same record as rebuilding the record it came from.
pub proof fn lemma_rebuilt_again(
    d: Seq<u8>,
    x: Seq<u8>,
    tail: Seq<Seq<u8>>,
    excluded: Seq<Seq<u8>>,
)
    requires
        entries(x) == retained(entries(d), excluded) + tail,
        forall|j: int| 0 <= j < tail.len() ==> !kept(#[trigger] tail[j], excluded),
    ensures
        rebuilt(x, excluded) == rebuilt(d, excluded),
        retained(entries(x), excluded) == retained(entries(d), excluded),
{
    let r = retained(entries(d), excluded);
    lemma_retained_concat(r, tail, excluded);
    lemma_retained_twice(entries(d), excluded);
    lemma_retained_none(tail, excluded);
    assert(r + Seq::<Seq<u8>>::empty() =~= r);
}

/// Entries whose keys are all excluded are all dropped.
pub proof fn lemma_retained_none(es: Seq<Seq<u8>>, excluded: Seq<Seq<u8>>)
    requires
        forall|j: int| 0 <= j < es.len() ==> !kept(#[trigger] es[j], excluded),
    ensures
        retained(es, excluded) == Seq::<Seq<u8>>::empty(),
    decreases es.len(),
{
    if es.len() > 0 {
        let init = es.drop_last();
        assert forall|j: int| 0 <= j < init.len() implies !kept(#[trigger] init[j], excluded) by {
            assert(init[j] == es[j]);
        }
        lemma_retained_none(init, excluded);
        assert(es[es.len() - 1] == es.last());
    }
}

/// Returns `from` plus the number of bytes of `data` from `from` on that
/// come before the next `stop` byte.
fn scan_to(data: &[u8], from: usize, stop: u8) -> (r: usize)
    requires
        from <= data@.len(),
    ensures
        r == from + run_len(data@, from as int, stop),
        r <= data@.len(),
{
    proof {
        lemma_run_len(data@, from as int, stop);
    }
    let mut end = from;
    while end < data.len() && data[end] != stop
        invariant
            from <= end <= data@.len(),
            run_len(data@, from as int, stop) == (end - from) + run_len(data@, end as int, stop),
        decreases data@.len() - end,
    {
        end = end + 1;
    }
    end
}

pub(crate) fn bytes_equal(a: &[u8], b: &[u8]) -> (r: bool)
    ensures
        r == (a@ == b@),
{
    if a.len() != b.len() {
        return false;
    }
    let mut i: usize = 0;
    while i < a.len()
        invariant
            a@.len() == b@.len(),
            0 <= i <= a@.len(),
            forall|j: int| 0 <= j < i ==> a@[j] == b@[j],
        decreases a@.len() - i,
    {
        if a[i] != b[i] {
            return false;
        }
        i = i + 1;
    }
    assert(a@ =~= b@);
    true
}

/// The key of the entry `entry`, if it has an `=`.
fn key_of<'a>(entry: &'a [u8]) -> (r: Option<&'a [u8]>)
    ensures
        r is Some <==> field_of(entry@) is Some,
        r is Some ==> r.unwrap()@ == field_of(entry@).unwrap().0,
{
    let eq = scan_to(entry, 0, EQUALS);
    if eq < entry.len() {
        Some(&entry[0..eq])
    } else {
        None
    }
}

/// Finds the value of the first entry whose key is `key`.
pub fn find_value<'a>(data: &'a [u8], key: &[u8]) -> (r: Option<&'a [u8]>)
    ensures
        match r {
            Some(v) => lookup(data@, key@) == Some(v@),
            None => lookup(data@, key@) is None,
        },
{
    let ghost d = data@;
    let ghost mut done: Seq<Seq<u8>> = Seq::empty();
    let mut pos: usize = 0;
    while pos < data.len()
        invariant
            d == data@,
            0 <= pos <= d.len(),
            entries(d) == done + entries_from(d, pos as int),
            lookup_in(done, key@) is None,
        decreases d.len() + 1 - pos,
    {
        let end = scan_to(data, pos, SEPARATOR);
        let entry = &data[pos..end];
        let ghost rest = entries_from(d, end as int + 1);
        assert(entries_from(d, pos as int) =~= seq![entry@] + rest);
        assert(done + entries_from(d, pos as int) =~= done.push(entry@) + rest);
        assert(done.push(entry@).drop_last() =~= done);
        let eq = scan_to(entry, 0, EQUALS);
        if eq < entry.len() && bytes_equal(&entry[0..eq], key) {
            proof {
                lemma_lookup_in_concat(done.push(entry@), rest, key@);
            }
            return Some(&entry[eq + 1..entry.len()]);
        }
        proof {
            done = done.push(entry@);
        }
        pos = if end < data.len() {
            end + 1
        } else {
            end
        };
    }
    assert(entries_from(d, pos as int) =~= Seq::<Seq<u8>>::empty());
    assert(done + Seq::<Seq<u8>>::empty() =~= done);
    None
}

/// Writes the entry `key=value` into `data` at `pos` and returns the position
/// after it; when it does not fit, writes nothing and returns `pos`.
pub fn write_entry(data: &mut [u8], pos: usize, key: &[u8], value: &[u8]) -> (r: usize)
    ensures
        final(data)@.len() == old(data)@.len(),
        pos + entry_bytes(key@, value@).len() <= old(data)@.len() ==> r == pos + entry_bytes(
            key@,
            value@,
        ).len() && final(data)@ == old(data)@.take(pos as int) + entry_bytes(key@, value@) + old(
            data,
        )@.skip(r as int),
        pos + entry_bytes(key@, value@).len() > old(data)@.len() ==> r == pos && final(data)@
            == old(data)@,
{
    let ghost e = entry_bytes(key@, value@);
    if pos > data.len() || key.len() >= data.len() - pos || value.len() > data.len() - pos
        - key.len() - 1 {
        return pos;
    }
    let ghost orig = data@;
    let end = pos + key.len() + 1 + value.len();
    let mut i: usize = 0;
    while i < key.len()
        invariant
            end == pos + e.len(),
            e == entry_bytes(key@, value@),
            end <= data@.len(),
            data@.len() == orig.len(),
            0 <= i <= key@.len(),
            forall|j: int| 0 <= j < pos ==> data@[j] == orig[j],
            forall|j: int| end <= j < data@.len() ==> data@[j] == orig[j],
            forall|j: int| pos <= j < pos + i ==> data@[j] == e[j - pos],
        decreases key@.len() - i,
    {
        data[pos + i] = key[i];
        i = i + 1;
    }
    data[pos + key.len()] = EQUALS;
    let start = pos + key.len() + 1;
    let mut k: usize = 0;
    while k < value.len()
        invariant
            end == pos + e.len(),
            e == entry_bytes(key@, value@),
            start == pos + key@.len() + 1,
            end <= data@.len(),
            data@.len() == orig.len(),
            0 <= k <= value@.len(),
            forall|j: int| 0 <= j < pos ==> data@[j] == orig[j],
            forall|j: int| end <= j < data@.len() ==> data@[j] == orig[j],
            forall|j: int| pos <= j < start + k ==> data@[j] == e[j - pos],
        decreases value@.len() - k,
    {
        data[start + k] = value[k];
        k = k + 1;
    }
    assert(data@ =~= orig.take(pos as int) + e + orig.skip(end as int));
    end
}

/// Writes `;` into `data` at `pos` and returns the position after it; when
/// there is no room, writes nothing and returns `pos`.
pub fn write_separator(data: &mut [u8], pos: usize) -> (r: usize)
    ensures
        final(data)@.len() == old(data)@.len(),
        pos < old(data)@.len() ==> r == pos + 1 && final(data)@ == old(data)@.update(
            pos as int,
            SEPARATOR,
        ),
        pos >= old(data)@.len() ==> r == pos && final(data)@ == old(data)@,
{
    if pos < data.len() {
        data[pos] = SEPARATOR;
        pos + 1
    } else {
        pos
    }
}

/// Adds the field `key=value` to the record held in `buf[..pos]`, as
/// `append_field` says, and returns the record's new length.
pub(crate) fn put_field(buf: &mut [u8], pos: usize, key: &[u8], value: &[u8]) -> (r: usize)
    requires
        old(buf)@.len() == RECORD_CAPACITY,
        pos <= RECORD_CAPACITY,
    ensures
        final(buf)@.len() == RECORD_CAPACITY,
        r <= RECORD_CAPACITY,
        final(buf)@.take(r as int) == append_field(old(buf)@.take(pos as int), key@, value@),
{
    let ghost start = buf@.take(pos as int);
    let mut p = pos;
    if p > 0 {
        p = write_separator(buf, p);
    }
    let ghost mid = buf@.take(p as int);
    assert(mid =~= (if start.len() > 0 {
        append_separator(start)
    } else {
        start
    }));
    let q = write_entry(buf, p, key, value);
    assert(buf@.take(q as int) =~= append_entry(mid, key@, value@));
    q
}

/// Adding a field that fits to the join of non-empty entries joins one
/// entry more.
pub proof fn lemma_append_field_join(es: Seq<Seq<u8>>, key: Seq<u8>, value: Seq<u8>)
    requires
        forall|i: int| 0 <= i < es.len() ==> (#[trigger] es[i]).len() > 0,
        join(es).len() + 1 + entry_bytes(key, value).len() <= RECORD_CAPACITY,
    ensures
        append_field(join(es), key, value) == join(es.push(entry_bytes(key, value))),
        join(es).len() == 0 <==> es.len() == 0,
    decreases es.len(),
{
    let e = entry_bytes(key, value);
    let l = es.push(e);
    assert(l.drop_last() =~= es);
    if es.len() == 0 {
        assert(join(es) =~= Seq::<u8>::empty());
        assert(join(l) == l[0]);
    } else if es.len() == 1 {
        assert(join(es) == es[0]);
    } else {
        let init = es.drop_last();
        assert forall|i: int| 0 <= i < init.len() implies (#[trigger] init[i]).len() > 0 by {
            assert(init[i] == es[i]);
        }
        assert(join(es) == join(init) + seq![SEPARATOR] + es.last());
    }
}

fn is_excluded(key: &[u8], excluded: &Vec<Vec<u8>>) -> (r: bool)
    ensures
        r == excluded.deep_view().contains(key@),
{
    let ghost ex = excluded.deep_view();
    let mut i: usize = 0;
    while i < excluded.len()
        invariant
            ex == excluded.deep_view(),
            0 <= i <= excluded@.len(),
            forall|j: int| 0 <= j < i ==> ex[j] != key@,
        decreases excluded@.len() - i,
    {
        assert(ex[i as int] == excluded@[i as int]@);
        if bytes_equal(excluded[i].as_slice(), key) {
            assert(ex[i as int] == key@);
            return true;
        }
        i = i + 1;
    }
    false
}

/// Copies the entries of `data` that are not empty and whose key is not
/// among `excluded`, in their order, with one `;` between neighbours.
pub fn rebuild_excluding(data: &[u8], excluded: &Vec<Vec<u8>>) -> (r: Vec<u8>)
    ensures
        r@ == rebuilt(data@, excluded.deep_view()),
        r@.len() <= data@.len(),
{
    let ghost d = data@;
    let ghost ex = excluded.deep_view();
    let ghost mut done: Seq<Seq<u8>> = Seq::empty();
    let mut out: Vec<u8> = Vec::new();
    let mut pos: usize = 0;
    proof {
        lemma_entries_shape(d);
    }
    while pos < data.len()
        invariant
            d == data@,
            ex == excluded.deep_view(),
            0 <= pos <= d.len(),
            entries(d) == done + entries_from(d, pos as int),
            out@ == join(retained(done, ex)),
            out@.len() == 0 <==> retained(done, ex).len() == 0,
            out@.len() <= pos,
            pos < d.len() ==> out@.len() == 0 || out@.len() + 1 <= pos,
            forall|i: int| 0 <= i < done.len() ==> free_of(#[trigger] done[i], SEPARATOR),
            forall|i: int| 0 <= i < entries(d).len() ==> free_of(#[trigger] entries(d)[i], SEPARATOR),
        decreases d.len() + 1 - pos,
    {
        let end = scan_to(data, pos, SEPARATOR);
        let entry = &data[pos..end];
        let ghost rest = entries_from(d, end as int + 1);
        assert(entries_from(d, pos as int) =~= seq![entry@] + rest);
        assert(done + entries_from(d, pos as int) =~= done.push(entry@) + rest);
        let ghost next = done.push(entry@);
        assert(next.drop_last() =~= done);
        assert(entries(d)[done.len() as int] == entry@);
        let skip = match key_of(entry) {
            Some(k) => is_excluded(k, excluded),
            None => false,
        };
        if !skip && entry.len() > 0 {
            let ghost before = out@;
            let ghost rd = retained(done, ex);
            if out.len() > 0 {
                out.push(SEPARATOR);
            }
            let mut i: usize = 0;
            let ghost mid = out@;
            while i < entry.len()
                invariant
                    0 <= i <= entry@.len(),
                    out@ == mid + entry@.take(i as int),
                decreases entry@.len() - i,
            {
                out.push(entry[i]);
                i = i + 1;
            }
            proof {
                assert(entry@.take(entry@.len() as int) =~= entry@);
                let rn = retained(next, ex);
                assert(rn == rd.push(entry@));
                if rd.len() == 0 {
                    assert(rn =~= seq![entry@]);
                    assert(out@ =~= entry@);
                } else {
                    assert(rn.drop_last() =~= rd);
                    assert(out@ =~= before + seq![SEPARATOR] + entry@);
                }
            }
        }
        proof {
            done = next;
        }
        pos = if end < data.len() {
            end + 1
        } else {
            end
        };
    }
    assert(entries_from(d, pos as int) =~= Seq::<Seq<u8>>::empty());
    assert(done + Seq::<Seq<u8>>::empty() =~= done);
    out
}

} // verus!
